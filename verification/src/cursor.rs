use vstd::prelude::*;

use vstd::bytes::lemma_auto_spec_u32_to_from_le_bytes;
use vstd::bytes::spec_u32_from_le_bytes;
use vstd::bytes::spec_u32_to_le_bytes;
use vstd::bytes::u32_from_le_bytes;
use vstd::slice::slice_index_get;
use vstd::slice::slice_subrange;
use vstd::slice::slice_to_vec;
use vstd::string::StringSliceAdditionalSpecFns;
use vstd::utf8::decode_utf8;
use vstd::utf8::valid_utf8;

use crate::error::QueryError;

verus! {

/// The 32-bit integer that starts at byte offset `i` of `s`, read in
/// little-endian byte order.  The cursor format writes every multi-byte
/// integer this way; the byte order is fixed here instead of inheriting
/// whatever the host machine uses.
pub open spec fn le32_at(s: Seq<u8>, i: int) -> u32
    recommends
        0 <= i,
        i + 4 <= s.len(),
{
    spec_u32_from_le_bytes(s.subrange(i, i + 4))
}

/// The length of one row frame's header: a four-byte tag, then one
/// four-byte type tag and one four-byte offset marker per column.
pub open spec fn header_len(ncols: nat) -> int {
    4 + 8 * (ncols as int)
}

/// The offset markers of the row frame that starts the byte sequence `s`:
/// the `ncols` little-endian words that follow the tag and the type tags.
pub open spec fn row_markers(s: Seq<u8>, ncols: nat) -> Seq<int> {
    Seq::new(ncols, |j: int| le32_at(s, 4 + 4 * (ncols as int) + 4 * j) as int)
}

/// Parse the field data of one row.  `data` is the row's data region,
/// `markers` the remaining offset markers and `base` the current offset
/// baseline.  Marker `m` names the offset just past its field, so the
/// field occupies `data[base .. m]` and `data[m]` must be the NUL that
/// terminates it; the baseline then advances past that NUL, to `m + 1`.
/// A marker below the baseline (an arithmetic underflow of the field
/// length), a marker past the data, or a missing NUL fails the parse.
/// On success the result carries the fields and the final baseline, which
/// is the number of data bytes the row consumed.
pub open spec fn parse_fields(data: Seq<u8>, markers: Seq<int>, base: int) -> Option<
    (Seq<Seq<u8>>, int),
>
    decreases markers.len(),
{
    if markers.len() == 0 {
        Some((Seq::<Seq<u8>>::empty(), base))
    } else {
        let m = markers[0];
        if m < base || m >= data.len() || data[m] != 0 {
            None
        } else {
            match parse_fields(data, markers.drop_first(), m + 1) {
                None => None,
                Some((rest, end)) => Some((seq![data.subrange(base, m)] + rest, end)),
            }
        }
    }
}

/// A successful field parse stays within the data region, and yields one
/// field per marker.
pub proof fn lemma_parse_fields_in_range(data: Seq<u8>, markers: Seq<int>, base: int)
    requires
        0 <= base <= data.len(),
        parse_fields(data, markers, base) is Some,
    ensures
        base <= parse_fields(data, markers, base).unwrap().1 <= data.len(),
        parse_fields(data, markers, base).unwrap().0.len() == markers.len(),
    decreases markers.len(),
{
    if markers.len() == 0 {
    } else {
        let m = markers[0];
        lemma_parse_fields_in_range(data, markers.drop_first(), m + 1);
    }
}

/// Parse a whole cursor buffer as a run of `ncols`-column row frames.
///
/// An empty buffer is the success terminator of the repeated-row parse;
/// it holds no rows.  Otherwise one row frame is parsed — a four-byte tag
/// whose value must equal `ncols`, `ncols` type tags (consumed and
/// discarded), `ncols` offset markers, then the NUL-terminated fields the
/// markers describe — and the rest of the buffer is parsed the same way.
/// Any malformed row fails the whole parse; there is no partial recovery.
pub open spec fn parse_rows(s: Seq<u8>, ncols: nat) -> Option<Seq<Seq<Seq<u8>>>>
    decreases s.len(),
{
    if s.len() == 0 {
        Some(Seq::<Seq<Seq<u8>>>::empty())
    } else if s.len() < header_len(ncols) {
        None
    } else if le32_at(s, 0) as nat != ncols {
        None
    } else {
        match parse_fields(s.skip(header_len(ncols)), row_markers(s, ncols), 0) {
            None => None,
            Some((fields, end)) => {
                let consumed = header_len(ncols) + end;
                // a successful field parse never leaves the data region,
                // so this bound only keeps the definition well-founded
                if end < 0 || consumed > s.len() {
                    None
                } else {
                    match parse_rows(s.skip(consumed), ncols) {
                        None => None,
                        Some(rest) => Some(seq![fields] + rest),
                    }
                }
            },
        }
    }
}

/// Every row of a successful parse has exactly `ncols` fields.
pub proof fn lemma_parse_rows_arity(s: Seq<u8>, ncols: nat)
    requires
        parse_rows(s, ncols) is Some,
    ensures
        forall|i: int|
            0 <= i < parse_rows(s, ncols).unwrap().len() ==> #[trigger] parse_rows(
                s,
                ncols,
            ).unwrap()[i].len() == ncols,
    decreases s.len(),
{
    if s.len() == 0 {
    } else {
        let data = s.skip(header_len(ncols));
        let markers = row_markers(s, ncols);
        let (fields, end) = parse_fields(data, markers, 0).unwrap();
        lemma_parse_fields_in_range(data, markers, 0);
        let consumed = header_len(ncols) + end;
        let rest = parse_rows(s.skip(consumed), ncols).unwrap();
        lemma_parse_rows_arity(s.skip(consumed), ncols);
        let rows = parse_rows(s, ncols).unwrap();
        assert(rows == seq![fields] + rest);
        assert forall|i: int| 0 <= i < rows.len() implies #[trigger] rows[i].len() == ncols by {
            if i == 0 {
                assert(rows[0] == fields);
            } else {
                assert(rows[i] == rest[i - 1]);
            }
        }
    }
}

/// Every field of every row is valid UTF-8.
pub open spec fn rows_utf8(rows: Seq<Seq<Seq<u8>>>) -> bool {
    forall|i: int, j: int|
        0 <= i < rows.len() && 0 <= j < rows[i].len() ==> valid_utf8(#[trigger] rows[i][j])
}

/// The rows' fields as text, each field decoded from its UTF-8 bytes.
pub open spec fn rows_text(rows: Seq<Seq<Seq<u8>>>) -> Seq<Seq<Seq<char>>> {
    rows.map_values(|row: Seq<Seq<u8>>| row.map_values(|f: Seq<u8>| decode_utf8(f)))
}

/// Relies on `core::str::from_utf8`: it returns `Ok` exactly when the
/// bytes are valid UTF-8, and the returned string slice consists of
/// exactly the given bytes.
#[verifier::external_body]
fn bytes_to_str(b: &[u8]) -> (r: Option<&str>)
    ensures
        r is Some <==> valid_utf8(b@),
        r matches Some(s) ==> s.spec_bytes() == b@,
{
    core::str::from_utf8(b).ok()
}

/// Decode one field from its UTF-8 bytes, or report that it is not UTF-8.
pub(crate) fn field_to_string(b: &[u8]) -> (r: Option<String>)
    ensures
        r is Some <==> valid_utf8(b@),
        r matches Some(s) ==> s@ == decode_utf8(b@),
{
    match bytes_to_str(b) {
        None => None,
        Some(s) => {
            proof {
                vstd::utf8::encode_utf8_decode_utf8(s@);
            }
            Some(s.to_owned())
        },
    }
}

/// Read the little-endian 32-bit word at `pos`.
fn read_u32le(buf: &[u8], pos: usize) -> (x: u32)
    requires
        pos + 4 <= buf@.len(),
    ensures
        x == le32_at(buf@, pos as int),
{
    let n = buf.len();
    assert(pos + 4 <= n);
    let s = slice_subrange(buf, pos, pos + 4);
    u32_from_le_bytes(s)
}

/// Decode a cursor buffer into its rows of raw byte fields.
///
/// This is the framing half of the cursor decoder: it checks every row
/// tag, skips the type tags, applies the offset markers and strips each
/// field's trailing NUL, but does not yet interpret the bytes as text.
/// It succeeds exactly when the buffer is a well-formed run of
/// `ncols`-column row frames, and fails with `FormatError` otherwise.
pub fn decode_frames(buf: &[u8], ncols: usize) -> (r: Result<Vec<Vec<Vec<u8>>>, QueryError>)
    ensures
        r is Ok <==> parse_rows(buf@, ncols as nat) is Some,
        r matches Ok(rows) ==> Some(rows.deep_view()) == parse_rows(buf@, ncols as nat),
        r matches Err(e) ==> e == QueryError::FormatError,
{
    let ghost nc = ncols as nat;
    let mut rows: Vec<Vec<Vec<u8>>> = Vec::new();
    let mut pos: usize = 0;
    proof {
        assert(buf@.skip(0) =~= buf@);
    }
    loop
        invariant
            pos <= buf@.len(),
            nc == ncols as nat,
            parse_rows(buf@, nc) is Some <==> parse_rows(buf@.skip(pos as int), nc) is Some,
            parse_rows(buf@.skip(pos as int), nc) matches Some(rest) ==> parse_rows(buf@, nc)
                == Some(rows.deep_view() + rest),
        decreases buf@.len() - pos,
    {
        let ghost srow = buf@.skip(pos as int);
        if pos == buf.len() {
            proof {
                assert(srow =~= Seq::<u8>::empty());
                assert(parse_rows(srow, nc) == Some(Seq::<Seq<Seq<u8>>>::empty()));
                assert(rows.deep_view() + Seq::<Seq<Seq<u8>>>::empty() =~= rows.deep_view());
            }
            return Ok(rows);
        }
        let remaining = buf.len() - pos;
        let header = match 8usize.checked_mul(ncols) {
            None => {
                proof {
                    assert(srow.len() < header_len(nc));
                }
                return Err(QueryError::FormatError);
            },
            Some(h8) => match h8.checked_add(4) {
                None => {
                    proof {
                        assert(srow.len() < header_len(nc));
                    }
                    return Err(QueryError::FormatError);
                },
                Some(h) => h,
            },
        };
        if remaining < header {
            proof {
                assert(srow.len() < header_len(nc));
            }
            return Err(QueryError::FormatError);
        }
        let tag = read_u32le(buf, pos);
        proof {
            assert(buf@.subrange(pos as int, pos + 4) =~= srow.subrange(0, 4));
        }
        if tag as usize != ncols {
            proof {
                assert(le32_at(srow, 0) as nat != nc);
            }
            return Err(QueryError::FormatError);
        }
        let data_start = pos + header;
        let ghost data = buf@.skip(data_start as int);
        let ghost markers = row_markers(srow, nc);
        proof {
            assert(srow.skip(header_len(nc)) =~= data);
        }
        let mut fields: Vec<Vec<u8>> = Vec::new();
        let mut base: usize = 0;
        proof {
            assert(markers.skip(0) =~= markers);
            assert(fields.deep_view() =~= Seq::<Seq<u8>>::empty());
        }
        for j in iter: 0..ncols
            invariant
                nc == ncols as nat,
                pos < buf@.len(),
                pos + header <= buf@.len(),
                data_start == pos + header,
                header == header_len(nc),
                data == buf@.skip(data_start as int),
                srow == buf@.skip(pos as int),
                le32_at(srow, 0) as nat == nc,
                markers == row_markers(srow, nc),
                parse_rows(buf@, nc) is Some <==> parse_rows(srow, nc) is Some,
                parse_rows(srow, nc) matches Some(rest) ==> parse_rows(buf@, nc) == Some(
                    rows.deep_view() + rest,
                ),
                base <= data.len(),
                fields.len() == j,
                parse_fields(data, markers, 0) is Some <==> parse_fields(
                    data,
                    markers.skip(j as int),
                    base as int,
                ) is Some,
                parse_fields(data, markers.skip(j as int), base as int) matches Some(p)
                    ==> parse_fields(data, markers, 0) == Some((fields.deep_view() + p.0, p.1)),
        {
            let moff = read_u32le(buf, pos + 4 + 4 * ncols + 4 * j) as usize;
            proof {
                assert(buf@.subrange(
                    pos + 4 + 4 * (ncols as int) + 4 * (j as int),
                    pos + 8 + 4 * (ncols as int) + 4 * (j as int),
                ) =~= srow.subrange(
                    4 + 4 * (ncols as int) + 4 * (j as int),
                    8 + 4 * (ncols as int) + 4 * (j as int),
                ));
                assert(markers.skip(j as int)[0] == markers[j as int]);
                assert(markers[j as int] == moff as int);
            }
            if moff < base {
                proof {
                    assert(parse_fields(data, markers.skip(j as int), base as int) is None);
                    assert(parse_fields(data, markers, 0) is None);
                    assert(srow.skip(header_len(nc)) =~= data);
                    assert(srow.len() >= header_len(nc));
                    assert(parse_rows(srow, nc) is None);
                }
                return Err(QueryError::FormatError);
            }
            if moff >= buf.len() - data_start {
                proof {
                    assert(moff as int >= data.len());
                    assert(parse_fields(data, markers.skip(j as int), base as int) is None);
                    assert(parse_fields(data, markers, 0) is None);
                    assert(srow.skip(header_len(nc)) =~= data);
                    assert(srow.len() >= header_len(nc));
                    assert(parse_rows(srow, nc) is None);
                }
                return Err(QueryError::FormatError);
            }
            let nul = *slice_index_get(buf, data_start + moff);
            proof {
                assert(data[moff as int] == buf@[data_start + moff]);
            }
            if nul != 0 {
                proof {
                    assert(parse_fields(data, markers.skip(j as int), base as int) is None);
                    assert(parse_fields(data, markers, 0) is None);
                    assert(srow.skip(header_len(nc)) =~= data);
                    assert(srow.len() >= header_len(nc));
                    assert(parse_rows(srow, nc) is None);
                }
                return Err(QueryError::FormatError);
            }
            let field = slice_to_vec(slice_subrange(buf, data_start + base, data_start + moff));
            let ghost old_fields = fields.deep_view();
            fields.push(field);
            proof {
                assert(field@ =~= data.subrange(base as int, moff as int));
                assert(field.deep_view() =~= data.subrange(base as int, moff as int));
                assert(fields.deep_view() =~= old_fields.push(
                    data.subrange(base as int, moff as int),
                ));
                assert(markers.skip(j as int).drop_first() =~= markers.skip(j + 1));
                assert(parse_fields(data, markers.skip(j as int), base as int) matches Some(p)
                    ==> parse_fields(data, markers.skip(j + 1), moff + 1) matches Some(q) && p.0
                    == seq![data.subrange(base as int, moff as int)] + q.0 && p.1 == q.1);
                if parse_fields(data, markers.skip(j + 1), (moff + 1) as int) is Some {
                    let q = parse_fields(data, markers.skip(j + 1), (moff + 1) as int).unwrap();
                    assert(parse_fields(data, markers.skip(j as int), base as int) == Some(
                        (seq![data.subrange(base as int, moff as int)] + q.0, q.1),
                    ));
                    assert(old_fields + (seq![data.subrange(base as int, moff as int)] + q.0)
                        =~= fields.deep_view() + q.0);
                }
            }
            base = moff + 1;
        }
        proof {
            assert(markers.skip(nc as int) =~= Seq::<int>::empty());
            assert(parse_fields(data, markers.skip(nc as int), base as int) == Some(
                (Seq::<Seq<u8>>::empty(), base as int),
            ));
            assert(fields.deep_view() + Seq::<Seq<u8>>::empty() =~= fields.deep_view());
            assert(parse_fields(data, markers, 0) == Some((fields.deep_view(), base as int)));
        }
        let ghost old_rows = rows.deep_view();
        let ghost fields_view = fields.deep_view();
        rows.push(fields);
        pos = data_start + base;
        proof {
            assert(rows.deep_view() =~= old_rows.push(fields_view));
            assert(srow.skip(header_len(nc) + base) =~= buf@.skip(pos as int));
            assert(parse_rows(srow, nc) is Some <==> parse_rows(buf@.skip(pos as int), nc)
                is Some);
            assert(parse_rows(buf@.skip(pos as int), nc) matches Some(rest) ==> parse_rows(
                srow,
                nc,
            ) == Some(seq![fields_view] + rest));
            assert(parse_rows(buf@.skip(pos as int), nc) matches Some(rest) ==> old_rows + (
            seq![fields_view] + rest) =~= rows.deep_view() + rest);
        }
    }
}

/// Decode a cursor buffer into rows of UTF-8 text fields.
///
/// This is the whole multi-row cursor decoder: the framing of
/// [`decode_frames`] followed by the UTF-8 interpretation of every field.
/// A malformed frame fails with `FormatError`; a well-formed frame with a
/// field that is not valid UTF-8 fails with `EncodingError`; otherwise
/// every row of the buffer is returned, in buffer order.
pub fn decode_rows(buf: &[u8], ncols: usize) -> (r: Result<Vec<Vec<String>>, QueryError>)
    ensures
        r is Ok <==> (parse_rows(buf@, ncols as nat) matches Some(rows) && rows_utf8(rows)),
        r matches Ok(v) ==> Some(v.deep_view()) == Some(
            rows_text(parse_rows(buf@, ncols as nat).unwrap()),
        ),
        r matches Err(e) ==> e == QueryError::FormatError || e == QueryError::EncodingError,
        r matches Err(e) ==> ((e == QueryError::FormatError) <==> parse_rows(
            buf@,
            ncols as nat,
        ) is None),
{
    let frames = match decode_frames(buf, ncols) {
        Err(e) => {
            return Err(e);
        },
        Ok(frames) => frames,
    };
    let ghost parsed = parse_rows(buf@, ncols as nat).unwrap();
    proof {
        assert(frames.deep_view() == parsed);
        assert(parsed.len() == frames@.len());
    }
    let mut out: Vec<Vec<String>> = Vec::new();
    let nrows = frames.len();
    for i in 0..nrows
        invariant
            nrows == frames.len(),
            frames.deep_view() == parsed,
            parse_rows(buf@, ncols as nat) == Some(parsed),
            parsed.len() == nrows,
            out.len() == i,
            forall|a: int, b: int|
                0 <= a < i && 0 <= b < parsed[a].len() ==> valid_utf8(#[trigger] parsed[a][b]),
            out.deep_view() =~= rows_text(parsed.take(i as int)),
    {
        let row = vstd::std_specs::vec::vec_index(&frames, i);
        let mut trow: Vec<String> = Vec::new();
        let nfields = row.len();
        proof {
            assert(frames.deep_view()[i as int] == frames@[i as int].deep_view());
            assert(row.deep_view() == parsed[i as int]);
            assert(parsed[i as int].len() == row@.len());
        }
        for j in 0..nfields
            invariant
                nfields == row.len(),
                row.deep_view() == parsed[i as int],
                parsed[i as int].len() == row@.len(),
                parse_rows(buf@, ncols as nat) == Some(parsed),
                0 <= i < parsed.len(),
                trow.len() == j,
                forall|b: int| 0 <= b < j ==> valid_utf8(#[trigger] parsed[i as int][b]),
                trow.deep_view() =~= parsed[i as int].take(j as int).map_values(
                    |f: Seq<u8>| decode_utf8(f),
                ),
        {
            let fb = vstd::std_specs::vec::vec_index(row, j);
            proof {
                assert(row.deep_view()[j as int] == row@[j as int].deep_view());
                assert(row@[j as int].deep_view() =~= row@[j as int]@);
                assert(fb@ == parsed[i as int][j as int]);
            }
            match field_to_string(fb.as_slice()) {
                None => {
                    proof {
                        assert(!valid_utf8(parsed[i as int][j as int]));
                        assert(!rows_utf8(parsed));
                    }
                    return Err(QueryError::EncodingError);
                },
                Some(s) => {
                    let ghost old_trow = trow.deep_view();
                    trow.push(s);
                    proof {
                        assert(trow.deep_view() =~= old_trow.push(decode_utf8(
                            parsed[i as int][j as int],
                        )));
                        assert(parsed[i as int].take(j + 1) =~= parsed[i as int].take(
                            j as int,
                        ).push(parsed[i as int][j as int]));
                        assert(parsed[i as int].take(j + 1).map_values(
                            |f: Seq<u8>| decode_utf8(f),
                        ) =~= old_trow.push(decode_utf8(parsed[i as int][j as int])));
                    }
                },
            }
        }
        let ghost old_out = out.deep_view();
        let ghost trow_view = trow.deep_view();
        out.push(trow);
        proof {
            assert(parsed[i as int].take(nfields as int) =~= parsed[i as int]);
            assert(out.deep_view() =~= old_out.push(trow_view));
            assert(parsed.take(i + 1) =~= parsed.take(i as int).push(parsed[i as int]));
            assert(rows_text(parsed.take(i + 1)) =~= old_out.push(trow_view));
        }
    }
    proof {
        assert(parsed.take(nrows as int) =~= parsed);
        assert(rows_utf8(parsed));
    }
    Ok(out)
}

/// Parse the single-row, single-column identifier-resolution frame: a
/// four-byte tag with value 1, one four-byte type tag, one four-byte
/// absolute length, then exactly that many raw payload bytes with no
/// trailing NUL.  The result carries the payload and the number of bytes
/// the frame occupies.
pub open spec fn parse_single(s: Seq<u8>) -> Option<(Seq<u8>, int)> {
    if s.len() < 12 {
        None
    } else if le32_at(s, 0) != 1 {
        None
    } else {
        let len = le32_at(s, 8) as int;
        if s.len() < 12 + len {
            None
        } else {
            Some((s.subrange(12, 12 + len), 12 + len))
        }
    }
}

/// Decode an identifier-resolution frame into its payload and size.
///
/// Unlike the multi-row format, the payload is not NUL-terminated; the
/// frame's length word alone bounds it, and bytes past the frame are left
/// to the caller to judge.
pub fn decode_single_frame(buf: &[u8]) -> (r: Result<(Vec<u8>, usize), QueryError>)
    ensures
        r is Ok <==> parse_single(buf@) is Some,
        r matches Ok(p) ==> Some((p.0@, p.1 as int)) == parse_single(buf@),
        r matches Err(e) ==> e == QueryError::FormatError,
{
    if buf.len() < 12 {
        return Err(QueryError::FormatError);
    }
    let tag = read_u32le(buf, 0);
    if tag != 1 {
        return Err(QueryError::FormatError);
    }
    let len = read_u32le(buf, 8) as usize;
    if len > buf.len() - 12 {
        return Err(QueryError::FormatError);
    }
    let payload = slice_to_vec(slice_subrange(buf, 12, 12 + len));
    Ok((payload, 12 + len))
}

/// The concatenated little-endian bytes of a run of 32-bit words.
pub open spec fn words_bytes(ws: Seq<u32>) -> Seq<u8>
    decreases ws.len(),
{
    if ws.len() == 0 {
        Seq::empty()
    } else {
        spec_u32_to_le_bytes(ws[0]) + words_bytes(ws.drop_first())
    }
}

/// A run of words takes four bytes per word.
pub proof fn lemma_words_bytes_len(ws: Seq<u32>)
    ensures
        words_bytes(ws).len() == 4 * ws.len(),
    decreases ws.len(),
{
    lemma_auto_spec_u32_to_from_le_bytes();
    if ws.len() == 0 {
    } else {
        lemma_words_bytes_len(ws.drop_first());
    }
}

/// Word `j` of a run of words occupies bytes `4j .. 4j + 4`.
pub proof fn lemma_words_bytes_index(ws: Seq<u32>, j: int)
    requires
        0 <= j < ws.len(),
    ensures
        words_bytes(ws).subrange(4 * j, 4 * j + 4) == spec_u32_to_le_bytes(ws[j]),
    decreases j,
{
    lemma_auto_spec_u32_to_from_le_bytes();
    lemma_words_bytes_len(ws);
    lemma_words_bytes_len(ws.drop_first());
    if j == 0 {
        assert(words_bytes(ws).subrange(0, 4) =~= spec_u32_to_le_bytes(ws[0]));
    } else {
        lemma_words_bytes_index(ws.drop_first(), j - 1);
        assert(words_bytes(ws).subrange(4 * j, 4 * j + 4) =~= words_bytes(
            ws.drop_first(),
        ).subrange(4 * (j - 1), 4 * (j - 1) + 4));
    }
}

/// The data region a run of fields occupies: each field followed by the
/// NUL that terminates it.
pub open spec fn fields_data(fields: Seq<Seq<u8>>) -> Seq<u8>
    decreases fields.len(),
{
    if fields.len() == 0 {
        Seq::empty()
    } else {
        fields[0] + seq![0u8] + fields_data(fields.drop_first())
    }
}

/// The cumulative offset markers that describe a run of fields whose
/// data region starts at offset `base`: marker `j` names the offset of
/// the NUL just past field `j`, and the baseline advances past that NUL.
pub open spec fn field_markers(fields: Seq<Seq<u8>>, base: int) -> Seq<int>
    decreases fields.len(),
{
    if fields.len() == 0 {
        Seq::empty()
    } else {
        seq![base + fields[0].len()] + field_markers(
            fields.drop_first(),
            base + fields[0].len() + 1,
        )
    }
}

/// There is one marker per field, and every marker stays inside the data
/// region.
pub proof fn lemma_field_markers_bound(fields: Seq<Seq<u8>>, base: int)
    ensures
        field_markers(fields, base).len() == fields.len(),
        forall|j: int|
            0 <= j < fields.len() ==> base <= #[trigger] field_markers(fields, base)[j] < base
                + fields_data(fields).len(),
    decreases fields.len(),
{
    if fields.len() == 0 {
    } else {
        let base2 = base + fields[0].len() + 1;
        lemma_field_markers_bound(fields.drop_first(), base2);
        assert forall|j: int|
            0 <= j < fields.len() implies base <= #[trigger] field_markers(fields, base)[j] < base
            + fields_data(fields).len() by {
            if j == 0 {
                assert(field_markers(fields, base)[0] == base + fields[0].len());
            } else {
                assert(field_markers(fields, base)[j] == field_markers(fields.drop_first(), base2)[
                    j - 1
                ]);
            }
        }
    }
}

/// Parsing the field data that [`fields_data`] lays out, with the
/// markers that [`field_markers`] assigns, recovers exactly the original
/// fields — whatever bytes follow the data region.
pub proof fn lemma_parse_fields_roundtrip(fields: Seq<Seq<u8>>, pre: Seq<u8>, rest: Seq<u8>)
    ensures
        parse_fields(
            pre + fields_data(fields) + rest,
            field_markers(fields, pre.len() as int),
            pre.len() as int,
        ) == Some((fields, pre.len() + fields_data(fields).len() as int)),
    decreases fields.len(),
{
    let data = pre + fields_data(fields) + rest;
    let markers = field_markers(fields, pre.len() as int);
    if fields.len() == 0 {
        assert(fields =~= Seq::<Seq<u8>>::empty());
    } else {
        let f0 = fields[0];
        let m0 = pre.len() + f0.len() as int;
        assert(markers[0] == m0);
        assert(data.len() == pre.len() + fields_data(fields).len() + rest.len());
        assert(fields_data(fields) == f0 + seq![0u8] + fields_data(fields.drop_first()));
        assert(m0 < data.len());
        assert(data[m0] == 0u8) by {
            assert(data[m0] == fields_data(fields)[f0.len() as int]);
            assert(fields_data(fields)[f0.len() as int] == (f0 + seq![0u8])[f0.len() as int]);
        }
        assert(data.subrange(pre.len() as int, m0) =~= f0);
        let pre2 = pre + f0 + seq![0u8];
        assert(pre2 + fields_data(fields.drop_first()) + rest =~= data);
        assert(pre2.len() == m0 + 1);
        assert(markers.drop_first() =~= field_markers(fields.drop_first(), pre2.len() as int));
        lemma_parse_fields_roundtrip(fields.drop_first(), pre2, rest);
        assert(parse_fields(data, markers.drop_first(), m0 + 1) == Some(
            (fields.drop_first(), pre2.len() + fields_data(fields.drop_first()).len() as int),
        ));
        assert(seq![data.subrange(pre.len() as int, m0)] + fields.drop_first() =~= fields);
        assert(pre2.len() + fields_data(fields.drop_first()).len() == pre.len() + fields_data(
            fields,
        ).len());
    }
}

/// The markers of a row's fields, as the 32-bit words a frame carries.
pub open spec fn marker_words(fields: Seq<Seq<u8>>) -> Seq<u32> {
    field_markers(fields, 0).map_values(|m: int| m as u32)
}

/// One whole row frame: the column-count tag, one type tag per column,
/// one cumulative offset marker per column, then the NUL-terminated
/// field data.
pub open spec fn row_frame(types: Seq<u32>, fields: Seq<Seq<u8>>) -> Seq<u8> {
    spec_u32_to_le_bytes(fields.len() as u32) + words_bytes(types) + words_bytes(
        marker_words(fields),
    ) + fields_data(fields)
}

/// Decoding a buffer that starts with a well-formed row frame recovers
/// exactly the frame's fields — each of the length its cumulative marker
/// assigns, each with its trailing NUL consumed — followed by whatever
/// rows the remainder of the buffer holds.
pub proof fn lemma_row_frame_roundtrip(types: Seq<u32>, fields: Seq<Seq<u8>>, rest: Seq<u8>)
    requires
        types.len() == fields.len(),
        fields.len() <= u32::MAX,
        fields_data(fields).len() <= u32::MAX,
        parse_rows(rest, fields.len() as nat) is Some,
    ensures
        parse_rows(row_frame(types, fields) + rest, fields.len() as nat) == Some(
            seq![fields] + parse_rows(rest, fields.len() as nat).unwrap(),
        ),
{
    lemma_auto_spec_u32_to_from_le_bytes();
    let n = fields.len() as nat;
    let ni = fields.len() as int;
    let s = row_frame(types, fields) + rest;
    let frame = row_frame(types, fields);
    lemma_words_bytes_len(types);
    lemma_words_bytes_len(marker_words(fields));
    lemma_field_markers_bound(fields, 0);
    assert(marker_words(fields).len() == ni);
    assert(frame.len() == 4 + 8 * ni + fields_data(fields).len());
    assert(s.len() >= header_len(n));
    assert(s.len() != 0);
    assert(le32_at(s, 0) as nat == n) by {
        assert(s.subrange(0, 4) =~= spec_u32_to_le_bytes(fields.len() as u32));
    }
    assert(row_markers(s, n) =~= field_markers(fields, 0)) by {
        assert forall|j: int| 0 <= j < ni implies row_markers(s, n)[j] == field_markers(fields, 0)[
            j
        ] by {
            lemma_words_bytes_index(marker_words(fields), j);
            assert(s.subrange(4 + 4 * ni + 4 * j, 8 + 4 * ni + 4 * j) =~= words_bytes(
                marker_words(fields),
            ).subrange(4 * j, 4 * j + 4));
            assert(le32_at(s, 4 + 4 * ni + 4 * j) == marker_words(fields)[j]);
            assert(marker_words(fields)[j] == field_markers(fields, 0)[j] as u32);
            assert(0 <= field_markers(fields, 0)[j] <= u32::MAX);
        }
    }
    let data = s.skip(header_len(n));
    assert(Seq::<u8>::empty() + fields_data(fields) + rest =~= data);
    lemma_parse_fields_roundtrip(fields, Seq::<u8>::empty(), rest);
    assert(parse_fields(data, row_markers(s, n), 0) == Some(
        (fields, fields_data(fields).len() as int),
    ));
    let consumed = header_len(n) + fields_data(fields).len() as int;
    assert(consumed <= s.len());
    assert(s.skip(consumed) =~= rest);
}

/// One whole identifier-resolution frame: a tag with value 1, one type
/// tag, the payload's absolute length, then the payload itself with no
/// trailing NUL.
pub open spec fn single_frame(type_tag: u32, payload: Seq<u8>) -> Seq<u8> {
    spec_u32_to_le_bytes(1u32) + spec_u32_to_le_bytes(type_tag) + spec_u32_to_le_bytes(
        payload.len() as u32,
    ) + payload
}

/// Decoding the single-column identifier frame recovers exactly the
/// `length` payload bytes the frame names, and consumes no byte past
/// them: no trailing NUL belongs to this frame, whatever follows it.
pub proof fn lemma_single_frame_roundtrip(type_tag: u32, payload: Seq<u8>, rest: Seq<u8>)
    requires
        payload.len() <= u32::MAX,
    ensures
        parse_single(single_frame(type_tag, payload) + rest) == Some(
            (payload, 12 + payload.len() as int),
        ),
{
    lemma_auto_spec_u32_to_from_le_bytes();
    let s = single_frame(type_tag, payload) + rest;
    assert(s.subrange(0, 4) =~= spec_u32_to_le_bytes(1u32));
    assert(s.subrange(8, 12) =~= spec_u32_to_le_bytes(payload.len() as u32));
    assert(le32_at(s, 0) == 1u32);
    assert(le32_at(s, 8) == payload.len() as u32);
    assert(s.subrange(12, 12 + payload.len() as int) =~= payload);
}

} // verus!
