use vstd::prelude::*;

use vstd::string::StringSliceAdditionalSpecFns;
use vstd::utf8::char_u32_cast;
use vstd::utf8::char_is_scalar;
use vstd::utf8::encode_scalar;
use vstd::utf8::encode_utf8;
use vstd::utf8::has_width_1_encoding;
use vstd::utf8::is_scalar;
use vstd::utf8::leading_byte_width_1;

use crate::escape::escape_chars;
use crate::escape::escape_result;
use crate::escape::lemma_escape_chars_clean;
use crate::results::spec_description;
use crate::results::QueryResult;
use crate::results::QueryResultView;

verus! {

/// The wire bytes of an optional label: the escaped label text as UTF-8,
/// or nothing when there is no label.
pub open spec fn label_bytes(val: Option<Seq<char>>) -> Seq<u8> {
    match val {
        Some(v) => encode_utf8(escape_chars(v)),
        None => Seq::empty(),
    }
}

/// The wire bytes of one metadata block: escaped name, the 0x1F
/// separator, escaped value.
pub open spec fn spec_meta_block(name: Seq<char>, value: Seq<char>) -> Seq<u8> {
    encode_utf8(escape_chars(name)) + seq![0x1fu8] + encode_utf8(escape_chars(value))
}

/// The wire bytes of a run of metadata blocks, joined by the same 0x1F
/// byte that separates a name from its value: block boundaries are
/// positional, not self-delimiting.
pub open spec fn spec_meta_blocks(meta: Seq<(Seq<char>, Seq<char>)>) -> Seq<u8>
    decreases meta.len(),
{
    if meta.len() == 0 {
        Seq::empty()
    } else if meta.len() == 1 {
        spec_meta_block(meta[0].0, meta[0].1)
    } else {
        spec_meta_block(meta[0].0, meta[0].1) + seq![0x1fu8] + spec_meta_blocks(meta.drop_first())
    }
}

/// The wire bytes of one whole output record: optional label, NUL, the
/// metadata blocks, and exactly one terminating LF.  Every free-text
/// piece is escaped before it is placed into the record; the encoder
/// enforces the format's invariant instead of hoping for clean inputs.
pub open spec fn spec_rofi_option(val: Option<Seq<char>>, meta: Seq<(Seq<char>, Seq<char>)>) -> Seq<
    u8,
> {
    label_bytes(val) + seq![0u8] + spec_meta_blocks(meta) + seq![0x0au8]
}

/// The views of a metadata vector's name/value pairs.
pub open spec fn meta_view(m: Seq<(String, String)>) -> Seq<(Seq<char>, Seq<char>)> {
    m.map_values(|p: (String, String)| (p.0@, p.1@))
}

/// The wire bytes of one encoded search result: its label is the
/// result's description, and a single `info` metadata block carries the
/// result's identifier.
pub open spec fn spec_format_result(v: QueryResultView) -> Seq<u8> {
    spec_rofi_option(Some(spec_description(v)), seq![(seq!['i', 'n', 'f', 'o'], v.uuid)])
}

/// Appending one more metadata pair extends the blocks at their end.
pub proof fn lemma_meta_blocks_push(meta: Seq<(Seq<char>, Seq<char>)>, p: (Seq<char>, Seq<char>))
    ensures
        spec_meta_blocks(meta.push(p)) == if meta.len() == 0 {
            spec_meta_block(p.0, p.1)
        } else {
            spec_meta_blocks(meta) + seq![0x1fu8] + spec_meta_block(p.0, p.1)
        },
    decreases meta.len(),
{
    if meta.len() == 0 {
        assert(meta.push(p).len() == 1);
        assert(meta.push(p)[0] == p);
    } else if meta.len() == 1 {
        assert(meta.push(p).drop_first() =~= seq![p]);
        assert(spec_meta_blocks(seq![p]) == spec_meta_block(p.0, p.1));
        assert(spec_meta_blocks(meta.push(p)) == spec_meta_block(meta[0].0, meta[0].1)
            + seq![0x1fu8] + spec_meta_blocks(seq![p]));
        assert(spec_meta_blocks(meta) == spec_meta_block(meta[0].0, meta[0].1));
    } else {
        assert(meta.push(p).drop_first() =~= meta.drop_first().push(p));
        lemma_meta_blocks_push(meta.drop_first(), p);
        let head = spec_meta_block(meta[0].0, meta[0].1) + seq![0x1fu8];
        assert(head + (spec_meta_blocks(meta.drop_first()) + seq![0x1fu8] + spec_meta_block(
            p.0,
            p.1,
        )) =~= (head + spec_meta_blocks(meta.drop_first())) + seq![0x1fu8] + spec_meta_block(
            p.0,
            p.1,
        ));
    }
}

/// The UTF-8 encoding of a scalar never contains a low byte other than
/// the scalar itself: multi-byte encodings consist of bytes at or above
/// 0x80 only.
proof fn lemma_encode_scalar_no_low_byte(c: u32, b: u8)
    requires
        is_scalar(c),
        b < 0x80,
        c != b as u32,
    ensures
        forall|j: int| 0 <= j < encode_scalar(c).len() ==> encode_scalar(c)[j] != b,
{
    if has_width_1_encoding(c) {
        assert((c & 0x7F) as u8 != b) by (bit_vector)
            requires
                c <= 0x7F,
                b < 0x80,
                c != b as u32,
        ;
        assert(encode_scalar(c) == seq![leading_byte_width_1(c)]);
        assert(encode_scalar(c)[0] == (c & 0x7F) as u8);
    } else {
        assert(0xC0u8 | (((c >> 6) & 0x1F) as u8) >= 0x80) by (bit_vector);
        assert(0xE0u8 | (((c >> 12) & 0x0F) as u8) >= 0x80) by (bit_vector);
        assert(0xF0u8 | (((c >> 18) & 0x7) as u8) >= 0x80) by (bit_vector);
        assert(0x80u8 | ((c & 0x3F) as u8) >= 0x80) by (bit_vector);
        assert(0x80u8 | (((c >> 6) & 0x3F) as u8) >= 0x80) by (bit_vector);
        assert(0x80u8 | (((c >> 12) & 0x3F) as u8) >= 0x80) by (bit_vector);
        assert(forall|j: int| 0 <= j < encode_scalar(c).len() ==> encode_scalar(c)[j] >= 0x80);
    }
}

/// The UTF-8 encoding of a character sequence contains a given low byte
/// only where the sequence contains that very character.
pub proof fn lemma_encode_utf8_no_low_byte(s: Seq<char>, b: u8)
    requires
        b < 0x80,
        forall|i: int| 0 <= i < s.len() ==> (#[trigger] s[i]) as u32 != b as u32,
    ensures
        forall|j: int| 0 <= j < encode_utf8(s).len() ==> encode_utf8(s)[j] != b,
    decreases s.len(),
{
    if s.len() == 0 {
    } else {
        char_is_scalar(s[0]);
        lemma_encode_scalar_no_low_byte(s[0] as u32, b);
        lemma_encode_utf8_no_low_byte(s.drop_first(), b);
        let head = encode_scalar(s[0] as u32);
        let tail = encode_utf8(s.drop_first());
        assert forall|j: int| 0 <= j < encode_utf8(s).len() implies encode_utf8(s)[j] != b by {
            if j < head.len() {
                assert((head + tail)[j] == head[j]);
            } else {
                assert((head + tail)[j] == tail[j - head.len()]);
            }
        }
    }
}

/// The escaped form of any text encodes to bytes that contain neither a
/// raw NUL byte nor a raw newline byte.
pub proof fn lemma_escaped_bytes_clean(s: Seq<char>)
    ensures
        forall|j: int|
            0 <= j < encode_utf8(escape_chars(s)).len() ==> encode_utf8(escape_chars(s))[j] != 0u8
                && encode_utf8(escape_chars(s))[j] != 0x0au8,
{
    lemma_escape_chars_clean(s);
    let e = escape_chars(s);
    assert('\u{0}' as u32 == 0);
    assert('\n' as u32 == 10);
    assert forall|i: int| 0 <= i < e.len() implies (#[trigger] e[i]) as u32 != 0u8 as u32 by {
        if e[i] as u32 == 0 {
            char_u32_cast(e[i], 0);
            char_u32_cast('\u{0}', 0);
        }
    }
    assert forall|i: int| 0 <= i < e.len() implies (#[trigger] e[i]) as u32 != 0x0au8 as u32 by {
        if e[i] as u32 == 10 {
            char_u32_cast(e[i], 10);
            char_u32_cast('\n', 10);
        }
    }
    lemma_encode_utf8_no_low_byte(e, 0u8);
    lemma_encode_utf8_no_low_byte(e, 0x0au8);
}

/// The metadata blocks of a record contain no newline byte.
proof fn lemma_meta_blocks_no_lf(meta: Seq<(Seq<char>, Seq<char>)>)
    ensures
        forall|j: int|
            0 <= j < spec_meta_blocks(meta).len() ==> spec_meta_blocks(meta)[j] != 0x0au8,
    decreases meta.len(),
{
    if meta.len() == 0 {
    } else {
        lemma_escaped_bytes_clean(meta[0].0);
        lemma_escaped_bytes_clean(meta[0].1);
        let block = spec_meta_block(meta[0].0, meta[0].1);
        assert(forall|j: int| 0 <= j < block.len() ==> block[j] != 0x0au8);
        if meta.len() == 1 {
        } else {
            lemma_meta_blocks_no_lf(meta.drop_first());
            let rest = spec_meta_blocks(meta.drop_first());
            assert forall|j: int|
                0 <= j < spec_meta_blocks(meta).len() implies spec_meta_blocks(meta)[j]
                != 0x0au8 by {
                let whole = block + seq![0x1fu8] + rest;
                assert(spec_meta_blocks(meta) == whole);
                if j < block.len() + 1 {
                } else {
                    assert(whole[j] == rest[j - block.len() - 1]);
                }
            }
        }
    }
}

/// An encoded record is exactly one line: its last byte is the only
/// newline byte in it, whatever label text and metadata it was given.
pub proof fn lemma_record_single_line(val: Option<Seq<char>>, meta: Seq<(Seq<char>, Seq<char>)>)
    ensures
        spec_rofi_option(val, meta).len() > 0,
        spec_rofi_option(val, meta).last() == 0x0au8,
        forall|j: int|
            0 <= j < spec_rofi_option(val, meta).len() - 1 ==> spec_rofi_option(val, meta)[j]
                != 0x0au8,
{
    match val {
        Some(v) => lemma_escaped_bytes_clean(v),
        None => {},
    }
    lemma_meta_blocks_no_lf(meta);
    let lab = label_bytes(val);
    let blocks = spec_meta_blocks(meta);
    let w = spec_rofi_option(val, meta);
    assert(w =~= lab + seq![0u8] + blocks + seq![0x0au8]);
    assert(w.last() == 0x0au8);
    assert forall|j: int| 0 <= j < w.len() - 1 implies w[j] != 0x0au8 by {
        if j < lab.len() {
            assert(w[j] == lab[j]);
        } else if j == lab.len() {
            assert(w[j] == 0u8);
        } else {
            assert(w[j] == blocks[j - lab.len() - 1]);
        }
    }
}

/// A search result's encoded label never contains a raw NUL or a raw
/// newline byte: the wire record's label region ends exactly at the
/// record's first NUL byte, whatever bytes the locator or the title held
/// before escaping.
pub proof fn lemma_label_ends_at_first_nul(v: QueryResultView)
    ensures
        ({
            let w = spec_format_result(v);
            let lab = encode_utf8(escape_chars(spec_description(v)));
            &&& w.len() > lab.len()
            &&& w.subrange(0, lab.len() as int) == lab
            &&& w[lab.len() as int] == 0u8
            &&& forall|j: int| 0 <= j < lab.len() ==> w[j] != 0u8 && w[j] != 0x0au8
        }),
{
    let w = spec_format_result(v);
    let lab = encode_utf8(escape_chars(spec_description(v)));
    lemma_escaped_bytes_clean(spec_description(v));
    assert(w =~= lab + seq![0u8] + spec_meta_blocks(seq![(seq!['i', 'n', 'f', 'o'], v.uuid)])
        + seq![0x0au8]);
    assert(w.subrange(0, lab.len() as int) =~= lab);
    assert(w[lab.len() as int] == 0u8);
    assert forall|j: int| 0 <= j < lab.len() implies w[j] != 0u8 && w[j] != 0x0au8 by {
        assert(w[j] == lab[j]);
    }
}

/// Encoding is deterministic: one and the same search result always
/// yields byte-identical output.
pub proof fn lemma_encoding_deterministic(a: QueryResultView, b: QueryResultView)
    requires
        a == b,
    ensures
        spec_format_result(a) == spec_format_result(b),
{
}

/// Encode one output record for the launcher: the optional label, then a
/// NUL, then the metadata blocks joined by 0x1F, then one LF.  Every
/// free-text piece — label, metadata names and metadata values — is
/// escaped on its way into the record.
pub fn format_rofi_option(val: Option<&str>, meta: &Vec<(String, String)>) -> (r: Vec<u8>)
    ensures
        r@ == spec_rofi_option(
            match val {
                Some(s) => Some(s@),
                None => None,
            },
            meta_view(meta@),
        ),
{
    let ghost valview: Option<Seq<char>> = match val {
        Some(s) => Some(s@),
        None => None,
    };
    let mut v: Vec<u8> = Vec::new();
    match val {
        Some(valstr) => {
            let esc = escape_result(valstr);
            v.extend_from_slice(esc.as_str().as_bytes());
            proof {
                assert(v@ =~= label_bytes(valview));
            }
        },
        None => {
            proof {
                assert(v@ =~= label_bytes(valview));
            }
        },
    }
    v.push(0u8);
    let ghost head = v@;
    proof {
        assert(head =~= label_bytes(valview) + seq![0u8]);
        assert(meta_view(meta@).take(0) =~= Seq::<(Seq<char>, Seq<char>)>::empty());
        assert(v@ =~= head + spec_meta_blocks(meta_view(meta@).take(0)));
    }
    let nmeta = meta.len();
    for k in 0..nmeta
        invariant
            nmeta == meta@.len(),
            head == label_bytes(valview) + seq![0u8],
            v@ == head + spec_meta_blocks(meta_view(meta@).take(k as int)),
    {
        if k > 0 {
            v.push(0x1fu8);
        }
        let pair = vstd::std_specs::vec::vec_index(meta, k);
        let escaped_name = escape_result(pair.0.as_str());
        v.extend_from_slice(escaped_name.as_str().as_bytes());
        v.push(0x1fu8);
        let escaped_value = escape_result(pair.1.as_str());
        v.extend_from_slice(escaped_value.as_str().as_bytes());
        proof {
            let mv = meta_view(meta@);
            assert(mv[k as int] == (meta@[k as int].0@, meta@[k as int].1@));
            assert(mv.take(k + 1) =~= mv.take(k as int).push(mv[k as int]));
            lemma_meta_blocks_push(mv.take(k as int), mv[k as int]);
            assert(v@ =~= head + spec_meta_blocks(mv.take(k + 1)));
        }
    }
    proof {
        assert(meta_view(meta@).take(nmeta as int) =~= meta_view(meta@));
    }
    v.push(0x0au8);
    proof {
        assert(v@ =~= spec_rofi_option(valview, meta_view(meta@)));
    }
    v
}

/// Encode one search result as a wire record: the label is the result's
/// description, and a single `info` metadata block carries the result's
/// identifier for later resolution.
pub fn format_result(r: &QueryResult) -> (out: Vec<u8>)
    ensures
        out@ == spec_format_result(r@),
{
    let desc = r.description();
    let mut meta: Vec<(String, String)> = Vec::new();
    meta.push(("info".to_owned(), r.uuid().clone()));
    let out = format_rofi_option(Some(desc.as_str()), &meta);
    proof {
        reveal_strlit("info");
        assert("info"@ =~= seq!['i', 'n', 'f', 'o']);
        assert(meta_view(meta@) =~= seq![(seq!['i', 'n', 'f', 'o'], r@.uuid)]);
    }
    out
}

/// The bytes of the one informational record a zero-result query emits:
/// the label `no results` and a single metadata block
/// `nonselectable` / `true`, whatever the query text was.
pub open spec fn spec_no_results() -> Seq<u8> {
    spec_rofi_option(
        Some(seq!['n', 'o', ' ', 'r', 'e', 's', 'u', 'l', 't', 's']),
        seq![
            (
                seq!['n', 'o', 'n', 's', 'e', 'l', 'e', 'c', 't', 'a', 'b', 'l', 'e'],
                seq!['t', 'r', 'u', 'e'],
            ),
        ],
    )
}

/// Encode the one line a zero-result query emits.
pub fn no_results_option() -> (r: Vec<u8>)
    ensures
        r@ == spec_no_results(),
{
    let mut meta: Vec<(String, String)> = Vec::new();
    meta.push(("nonselectable".to_owned(), "true".to_owned()));
    let r = format_rofi_option(Some("no results"), &meta);
    proof {
        reveal_strlit("no results");
        reveal_strlit("nonselectable");
        reveal_strlit("true");
        assert("no results"@ =~= seq!['n', 'o', ' ', 'r', 'e', 's', 'u', 'l', 't', 's']);
        assert("nonselectable"@ =~= seq![
            'n',
            'o',
            'n',
            's',
            'e',
            'l',
            'e',
            'c',
            't',
            'a',
            'b',
            'l',
            'e',
        ]);
        assert("true"@ =~= seq!['t', 'r', 'u', 'e']);
        assert(meta_view(meta@) =~= seq![
            (
                seq!['n', 'o', 'n', 's', 'e', 'l', 'e', 'c', 't', 'a', 'b', 'l', 'e'],
                seq!['t', 'r', 'u', 'e'],
            ),
        ]);
    }
    r
}

} // verus!
