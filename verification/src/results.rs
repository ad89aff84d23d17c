use vstd::prelude::*;

use crate::cursor::parse_rows;
use crate::cursor::parse_single;
use crate::cursor::rows_text;
use crate::cursor::rows_utf8;
use crate::cursor::decode_rows;
use crate::cursor::decode_single_frame;
use crate::error::QueryError;
use vstd::string::StringExecFns;
use vstd::utf8::decode_utf8;
use vstd::utf8::valid_utf8;

verus! {

/// What the URI parser yields for a locator text: `None` when the text is
/// not a parseable URI; otherwise the URI's path segments, which a URI
/// that cannot be a base does not have.  The segments depend on the text
/// alone, so they are named here rather than spelled out.
pub uninterp spec fn uri_segments_of(s: Seq<char>) -> Option<Option<Seq<Seq<char>>>>;

/// The percent-decoding of a piece of a URI path, read as UTF-8 with
/// invalid sequences replaced.  It depends on the input alone.
pub uninterp spec fn percent_decoded(s: Seq<char>) -> Seq<char>;

/// Relies on `url::Url::parse` and `url::Url::path_segments`: whether a
/// string parses as a URI, and which path segments the parsed URI then
/// has, depend on the string alone.  `path_segments` returns `None`
/// exactly for a URI that cannot be a base.
#[verifier::external_body]
fn parse_uri_segments(s: &str) -> (r: Option<Option<Vec<String>>>)
    ensures
        r.deep_view() == uri_segments_of(s@),
{
    match url::Url::parse(s) {
        Err(_) => None,
        Ok(u) => Some(
            u.path_segments().map(|segs| segs.map(|piece| piece.to_string()).collect()),
        ),
    }
}

/// Relies on `percent_encoding::percent_decode_str` and
/// `PercentDecode::decode_utf8_lossy`: the decoded text depends on the
/// input alone.
#[verifier::external_body]
fn percent_decode_lossy(s: &str) -> (r: String)
    ensures
        r@ == percent_decoded(s@),
{
    percent_encoding::percent_decode_str(s).decode_utf8_lossy().to_string()
}

/// A resource locator: the original URI text together with the path
/// segments the URI parser reported for it.
#[derive(Debug)]
pub struct Locator {
    text: String,
    segments: Option<Vec<String>>,
}

impl Locator {
    /// The locator text.
    pub closed spec fn text_view(&self) -> Seq<char> {
        self.text@
    }

    /// The locator's path segments, if the URI has any.
    pub closed spec fn segments_view(&self) -> Option<Seq<Seq<char>>> {
        self.segments.deep_view()
    }

    /// A well-formed locator's text parses as a URI, and the held
    /// segments are exactly that URI's path segments.
    pub open spec fn wf(&self) -> bool {
        uri_segments_of(self.text_view()) == Some(self.segments_view())
    }

    /// Parse a locator from its text; `None` when the text is not a
    /// parseable URI.
    pub fn parse(s: &str) -> (r: Option<Locator>)
        ensures
            r is Some <==> uri_segments_of(s@) is Some,
            r matches Some(l) ==> l.wf() && l.text_view() == s@ && Some(l.segments_view())
                == uri_segments_of(s@),
    {
        match parse_uri_segments(s) {
            None => None,
            Some(segments) => Some(Locator { text: s.to_owned(), segments }),
        }
    }

    /// The locator text, for handing to an opener.
    pub fn text(&self) -> (r: &String)
        ensures
            r@ == self.text_view(),
    {
        &self.text
    }
}

/// The mathematical content of one search result.
pub struct QueryResultView {
    pub uuid: Seq<char>,
    pub locator_text: Seq<char>,
    pub segments: Option<Seq<Seq<char>>>,
    pub title: Seq<char>,
    pub snippet: Seq<char>,
}

/// One search result: a stable identifier, a locator that parses as a
/// URI, a title that may be empty, and a snippet that is decoded but not
/// rendered yet.
#[derive(Debug)]
pub struct QueryResult {
    uuid: String,
    locator: Locator,
    title: String,
    snippet: String,
}

impl View for QueryResult {
    type V = QueryResultView;

    closed spec fn view(&self) -> QueryResultView {
        QueryResultView {
            uuid: self.uuid@,
            locator_text: self.locator.text_view(),
            segments: self.locator.segments_view(),
            title: self.title@,
            snippet: self.snippet@,
        }
    }
}

impl DeepView for QueryResult {
    type V = QueryResultView;

    open spec fn deep_view(&self) -> QueryResultView {
        self.view()
    }
}

/// A well-formed view holds segments that belong to its locator text.
pub open spec fn view_wf(v: QueryResultView) -> bool {
    uri_segments_of(v.locator_text) == Some(v.segments)
}

impl QueryResult {
    /// A well-formed result holds a locator that parses as a URI.
    pub open spec fn wf(&self) -> bool {
        view_wf(self@)
    }

    /// Build a result from one decoded row's fields; `None` exactly when
    /// the locator text is not a parseable URI.
    pub fn new(uuid: &str, uristr: &str, title: &str, snippet: &str) -> (r: Option<QueryResult>)
        ensures
            r is Some <==> uri_segments_of(uristr@) is Some,
            r matches Some(q) ==> q.wf() && q@ == (QueryResultView {
                uuid: uuid@,
                locator_text: uristr@,
                segments: uri_segments_of(uristr@).unwrap(),
                title: title@,
                snippet: snippet@,
            }),
    {
        match Locator::parse(uristr) {
            None => None,
            Some(locator) => Some(
                QueryResult {
                    uuid: uuid.to_owned(),
                    locator,
                    title: title.to_owned(),
                    snippet: snippet.to_owned(),
                },
            ),
        }
    }

    /// The result's stable identifier.
    pub fn uuid(&self) -> (r: &String)
        ensures
            r@ == self@.uuid,
    {
        &self.uuid
    }

    /// The result's locator.
    pub fn locator(&self) -> (r: &Locator)
        ensures
            r.text_view() == self@.locator_text,
            r.segments_view() == self@.segments,
    {
        &self.locator
    }
}

/// The segments joined by `/`, as the parent-path part of a label shows
/// them.
pub open spec fn join_slash(segs: Seq<Seq<char>>) -> Seq<char>
    decreases segs.len(),
{
    if segs.len() == 0 {
        Seq::empty()
    } else if segs.len() == 1 {
        segs[0]
    } else {
        segs[0] + seq!['/'] + join_slash(segs.drop_first())
    }
}

/// Appending one more segment extends the joined path at its end.
pub proof fn lemma_join_slash_push(segs: Seq<Seq<char>>, x: Seq<char>)
    ensures
        join_slash(segs.push(x)) == if segs.len() == 0 {
            x
        } else {
            join_slash(segs) + seq!['/'] + x
        },
    decreases segs.len(),
{
    if segs.len() == 0 {
        assert(segs.push(x).len() == 1);
        assert(segs.push(x)[0] == x);
    } else if segs.len() == 1 {
        assert(segs.push(x).drop_first() =~= seq![x]);
        assert(join_slash(seq![x]) == x);
        assert(join_slash(segs.push(x)) == segs.push(x)[0] + seq!['/'] + join_slash(seq![x]));
        assert(join_slash(segs) == segs[0]);
    } else {
        assert(segs.push(x).drop_first() =~= segs.drop_first().push(x));
        lemma_join_slash_push(segs.drop_first(), x);
        assert(segs[0] + seq!['/'] + (join_slash(segs.drop_first()) + seq!['/'] + x) =~= (segs[0]
            + seq!['/'] + join_slash(segs.drop_first())) + seq!['/'] + x);
    }
}

/// The segments before the last one: the "parent path" of a locator.
pub open spec fn parent_segments(segs: Seq<Seq<char>>) -> Seq<Seq<char>> {
    if segs.len() == 0 {
        segs
    } else {
        segs.take(segs.len() - 1)
    }
}

/// The human-readable label of a search result.
///
/// When the locator has path segments, the label is the percent-decoded
/// final segment followed by `: `, then the title when it is not empty,
/// then the remaining percent-decoded segments joined by `/` inside
/// ` [` and `]`.  When the locator has no path segments, the label is the
/// title alone (or nothing when the title is empty too).
pub open spec fn spec_description(v: QueryResultView) -> Seq<char> {
    let title_part = if v.title.len() > 0 {
        v.title
    } else {
        Seq::<char>::empty()
    };
    match v.segments {
        None => title_part,
        Some(segs) => {
            let file_part = if segs.len() > 0 {
                percent_decoded(segs.last()) + seq![':', ' ']
            } else {
                Seq::<char>::empty()
            };
            let parent = join_slash(
                parent_segments(segs).map_values(|piece: Seq<char>| percent_decoded(piece)),
            );
            file_part + title_part + seq![' ', '['] + parent + seq![']']
        },
    }
}

impl QueryResult {
    /// Render the result's human-readable label.
    pub fn description(&self) -> (r: String)
        ensures
            r@ == spec_description(self@),
    {
        let mut s = String::new();
        match &self.locator.segments {
            None => {
                if !self.title.as_str().is_empty() {
                    s.append(self.title.as_str());
                }
                proof {
                    assert(Seq::<char>::empty() + self.title@ =~= self.title@);
                }
                s
            },
            Some(segs) => {
                let nsegs = segs.len();
                if nsegs > 0 {
                    let last = vstd::std_specs::vec::vec_index(segs, nsegs - 1);
                    let decoded = percent_decode_lossy(last.as_str());
                    s.append(decoded.as_str());
                    s.push(':');
                    s.push(' ');
                    proof {
                        assert(segs.deep_view()[nsegs - 1] == segs@[nsegs - 1]@);
                        assert(segs.deep_view().last() == segs@[nsegs - 1]@);
                        assert(s@ =~= percent_decoded(segs.deep_view().last()) + seq![':', ' ']);
                    }
                }
                if !self.title.as_str().is_empty() {
                    s.append(self.title.as_str());
                }
                let ghost segsv = segs.deep_view();
                let ghost file_title = s@;
                proof {
                    let file_part = if segsv.len() > 0 {
                        percent_decoded(segsv.last()) + seq![':', ' ']
                    } else {
                        Seq::<char>::empty()
                    };
                    let title_part = if self.title@.len() > 0 {
                        self.title@
                    } else {
                        Seq::<char>::empty()
                    };
                    assert(file_title =~= file_part + title_part);
                }
                s.push(' ');
                s.push('[');
                let ghost parents = parent_segments(segsv).map_values(
                    |piece: Seq<char>| percent_decoded(piece),
                );
                let nparents = if nsegs > 0 {
                    nsegs - 1
                } else {
                    0
                };
                proof {
                    assert(parents.len() == nparents);
                    assert(s@ =~= file_title + seq![' ', '[']);
                    assert(join_slash(parents.take(0)) =~= Seq::<char>::empty());
                    assert(s@ =~= file_title + seq![' ', '['] + join_slash(parents.take(0)));
                }
                for k in 0..nparents
                    invariant
                        nsegs == segs@.len(),
                        nparents <= nsegs,
                        nsegs > 0 ==> nparents == nsegs - 1,
                        segsv == segs.deep_view(),
                        parents == parent_segments(segsv).map_values(
                            |piece: Seq<char>| percent_decoded(piece),
                        ),
                        parents.len() == nparents,
                        s@ == file_title + seq![' ', '['] + join_slash(parents.take(k as int)),
                {
                    if k > 0 {
                        s.push('/');
                    }
                    let piece = vstd::std_specs::vec::vec_index(segs, k);
                    let decoded = percent_decode_lossy(piece.as_str());
                    s.append(decoded.as_str());
                    proof {
                        assert(segs.deep_view()[k as int] == segs@[k as int]@);
                        assert(parent_segments(segsv)[k as int] == segsv[k as int]);
                        assert(parents[k as int] == percent_decoded(segsv[k as int]));
                        assert(parents.take(k + 1) =~= parents.take(k as int).push(
                            parents[k as int],
                        ));
                        lemma_join_slash_push(parents.take(k as int), parents[k as int]);
                        if k > 0 {
                            assert(s@ =~= file_title + seq![' ', '['] + join_slash(
                                parents.take(k + 1),
                            ));
                        } else {
                            assert(s@ =~= file_title + seq![' ', '['] + join_slash(
                                parents.take(k + 1),
                            ));
                        }
                    }
                }
                s.push(']');
                proof {
                    assert(parents.take(nparents as int) =~= parents);
                    assert(s@ =~= file_title + seq![' ', '['] + join_slash(parents) + seq![']']);
                    let file_part = if segsv.len() > 0 {
                        percent_decoded(segsv.last()) + seq![':', ' ']
                    } else {
                        Seq::<char>::empty()
                    };
                    let title_part = if self.title@.len() > 0 {
                        self.title@
                    } else {
                        Seq::<char>::empty()
                    };
                    assert(s@ =~= file_part + title_part + seq![' ', '['] + join_slash(parents)
                        + seq![']']);
                }
                s
            },
        }
    }
}

/// Build the results of a run of four-column text rows: each row becomes
/// a result `(identifier, locator, title, snippet)`, except that a row
/// whose locator text is not a parseable URI is silently left out.  Row
/// order is preserved.
pub open spec fn spec_build(rows: Seq<Seq<Seq<char>>>) -> Seq<QueryResultView>
    decreases rows.len(),
{
    if rows.len() == 0 {
        Seq::empty()
    } else {
        let row = rows[0];
        let rest = spec_build(rows.drop_first());
        match uri_segments_of(row[1]) {
            None => rest,
            Some(segs) => seq![
                QueryResultView {
                    uuid: row[0],
                    locator_text: row[1],
                    segments: segs,
                    title: row[2],
                    snippet: row[3],
                },
            ] + rest,
        }
    }
}

/// Building distributes over concatenation of row runs.
pub proof fn lemma_spec_build_concat(a: Seq<Seq<Seq<char>>>, b: Seq<Seq<Seq<char>>>)
    ensures
        spec_build(a + b) == spec_build(a) + spec_build(b),
    decreases a.len(),
{
    if a.len() == 0 {
        assert(a + b =~= b);
        assert(spec_build(a) + spec_build(b) =~= spec_build(b));
    } else {
        assert((a + b)[0] == a[0]);
        assert((a + b).drop_first() =~= a.drop_first() + b);
        lemma_spec_build_concat(a.drop_first(), b);
        match uri_segments_of(a[0][1]) {
            None => {},
            Some(segs) => {
                let head = seq![
                    QueryResultView {
                        uuid: a[0][0],
                        locator_text: a[0][1],
                        segments: segs,
                        title: a[0][2],
                        snippet: a[0][3],
                    },
                ];
                assert(head + (spec_build(a.drop_first()) + spec_build(b)) =~= (head + spec_build(
                    a.drop_first(),
                )) + spec_build(b));
            },
        }
    }
}

/// Every view that the builder emits is well formed: its locator text
/// parses as a URI with exactly the held segments.  This is the builder's
/// invariant — no result with an unparseable locator is ever emitted.
pub proof fn lemma_spec_build_valid(rows: Seq<Seq<Seq<char>>>)
    ensures
        forall|i: int| 0 <= i < spec_build(rows).len() ==> view_wf(#[trigger] spec_build(rows)[i]),
    decreases rows.len(),
{
    if rows.len() == 0 {
    } else {
        lemma_spec_build_valid(rows.drop_first());
        let rest = spec_build(rows.drop_first());
        match uri_segments_of(rows[0][1]) {
            None => {},
            Some(segs) => {
                assert forall|i: int| 0 <= i < spec_build(rows).len() implies view_wf(
                    #[trigger] spec_build(rows)[i],
                ) by {
                    if i == 0 {
                        assert(spec_build(rows)[0].locator_text == rows[0][1]);
                    } else {
                        assert(spec_build(rows)[i] == rest[i - 1]);
                    }
                }
            },
        }
    }
}

/// Turn decoded four-column rows into search results, silently dropping
/// each row whose locator text is not a parseable URI.  A dropped row
/// never aborts the processing of the remaining rows.
pub fn build_results(rows: &Vec<Vec<String>>) -> (r: Vec<QueryResult>)
    requires
        forall|i: int| 0 <= i < rows@.len() ==> (#[trigger] rows@[i])@.len() == 4,
    ensures
        r.deep_view() == spec_build(rows.deep_view()),
        forall|i: int| 0 <= i < r@.len() ==> (#[trigger] r@[i]).wf(),
{
    let mut out: Vec<QueryResult> = Vec::new();
    let nrows = rows.len();
    proof {
        assert(rows.deep_view().take(0) =~= Seq::<Seq<Seq<char>>>::empty());
        assert(out.deep_view() =~= spec_build(rows.deep_view().take(0)));
    }
    for i in 0..nrows
        invariant
            nrows == rows@.len(),
            forall|k: int| 0 <= k < rows@.len() ==> (#[trigger] rows@[k])@.len() == 4,
            out.deep_view() == spec_build(rows.deep_view().take(i as int)),
            forall|k: int| 0 <= k < out@.len() ==> (#[trigger] out@[k]).wf(),
    {
        let row = vstd::std_specs::vec::vec_index(rows, i);
        proof {
            assert(rows.deep_view()[i as int] == row.deep_view());
            assert(row.deep_view().len() == row@.len());
            assert(forall|j: int|
                0 <= j < 4 ==> row.deep_view()[j] == (#[trigger] row@[j])@);
        }
        let f0 = vstd::std_specs::vec::vec_index(row, 0);
        let f1 = vstd::std_specs::vec::vec_index(row, 1);
        let f2 = vstd::std_specs::vec::vec_index(row, 2);
        let f3 = vstd::std_specs::vec::vec_index(row, 3);
        let ghost old_out = out.deep_view();
        match QueryResult::new(f0.as_str(), f1.as_str(), f2.as_str(), f3.as_str()) {
            None => {},
            Some(q) => {
                out.push(q);
                proof {
                    assert(out.deep_view() =~= old_out.push(q@));
                }
            },
        }
        proof {
            let rowsv = rows.deep_view();
            assert(rowsv.take(i + 1) =~= rowsv.take(i as int) + seq![rowsv[i as int]]);
            lemma_spec_build_concat(rowsv.take(i as int), seq![rowsv[i as int]]);
            assert(seq![rowsv[i as int]].drop_first() =~= Seq::<Seq<Seq<char>>>::empty());
            assert(seq![rowsv[i as int]][0] == rowsv[i as int]);
            assert(spec_build(Seq::<Seq<Seq<char>>>::empty()) == Seq::<QueryResultView>::empty());
            match uri_segments_of(rowsv[i as int][1]) {
                None => {
                    assert(spec_build(seq![rowsv[i as int]]) =~= Seq::<QueryResultView>::empty());
                    assert(old_out + spec_build(seq![rowsv[i as int]]) =~= old_out);
                },
                Some(segs) => {
                    assert(spec_build(seq![rowsv[i as int]]) =~= seq![
                        QueryResultView {
                            uuid: rowsv[i as int][0],
                            locator_text: rowsv[i as int][1],
                            segments: segs,
                            title: rowsv[i as int][2],
                            snippet: rowsv[i as int][3],
                        },
                    ]);
                    assert(out.deep_view() =~= old_out + spec_build(seq![rowsv[i as int]]));
                },
            }
            assert(out.deep_view() =~= spec_build(rowsv.take(i + 1)));
        }
    }
    proof {
        assert(rows.deep_view().take(nrows as int) =~= rows.deep_view());
    }
    out
}

/// What a whole search reply decodes to: a protocol error when the
/// service advertises anything but four columns, the decoder's error when
/// the buffer is malformed or holds non-UTF-8 text, and otherwise the
/// built results of every decoded row.
pub open spec fn spec_search_reply(advertised: nat, s: Seq<u8>) -> Result<
    Seq<QueryResultView>,
    QueryError,
> {
    if advertised != 4 {
        Err(QueryError::ProtocolError)
    } else {
        match parse_rows(s, 4) {
            None => Err(QueryError::FormatError),
            Some(rows) => if !rows_utf8(rows) {
                Err(QueryError::EncodingError)
            } else {
                Ok(spec_build(rows_text(rows)))
            },
        }
    }
}

/// Decode one search reply: check the advertised column count, decode the
/// cursor buffer, and build the results.
pub fn decode_search_reply(advertised_columns: usize, buf: &[u8]) -> (r: Result<
    Vec<QueryResult>,
    QueryError,
>)
    ensures
        r is Ok <==> spec_search_reply(advertised_columns as nat, buf@) is Ok,
        r matches Ok(v) ==> Ok::<Seq<QueryResultView>, QueryError>(v.deep_view())
            == spec_search_reply(advertised_columns as nat, buf@)
            && (forall|i: int| 0 <= i < v@.len() ==> (#[trigger] v@[i]).wf()),
        r matches Err(e) ==> Err::<Seq<QueryResultView>, QueryError>(e) == spec_search_reply(
            advertised_columns as nat,
            buf@,
        ),
{
    if advertised_columns != 4 {
        return Err(QueryError::ProtocolError);
    }
    let rows = match decode_rows(buf, 4) {
        Err(e) => {
            return Err(e);
        },
        Ok(rows) => rows,
    };
    proof {
        crate::cursor::lemma_parse_rows_arity(buf@, 4);
        let parsed = parse_rows(buf@, 4).unwrap();
        assert(rows.deep_view() == rows_text(parsed));
        assert(forall|i: int|
            0 <= i < rows@.len() ==> (#[trigger] rows@[i])@.len() == 4) by {
            assert(forall|i: int|
                0 <= i < parsed.len() ==> #[trigger] rows_text(parsed)[i].len() == parsed[i].len());
            assert(forall|i: int|
                0 <= i < rows@.len() ==> (#[trigger] rows@[i])@.len() == rows.deep_view()[i].len());
        }
    }
    Ok(build_results(&rows))
}

/// What an identifier-resolution reply decodes to: a protocol error when
/// the service advertises anything but one column or when bytes follow
/// the single frame, "not found" when the reply is empty, the frame
/// decoder's error when the frame is malformed, an encoding error when
/// the payload is not UTF-8, and otherwise the resolved locator text.
pub open spec fn spec_resolve_reply(advertised: nat, s: Seq<u8>) -> Result<Seq<char>, QueryError> {
    if advertised != 1 {
        Err(QueryError::ProtocolError)
    } else if s.len() == 0 {
        Err(QueryError::NotFoundError)
    } else {
        match parse_single(s) {
            None => Err(QueryError::FormatError),
            Some((payload, consumed)) => if !valid_utf8(payload) {
                Err(QueryError::EncodingError)
            } else if consumed < s.len() {
                Err(QueryError::ProtocolError)
            } else {
                Ok(decode_utf8(payload))
            },
        }
    }
}

/// Decode one identifier-resolution reply into the locator text it
/// carries.
pub fn decode_resolve_reply(advertised_columns: usize, buf: &[u8]) -> (r: Result<
    String,
    QueryError,
>)
    ensures
        r is Ok <==> spec_resolve_reply(advertised_columns as nat, buf@) is Ok,
        r matches Ok(s) ==> Ok::<Seq<char>, QueryError>(s@) == spec_resolve_reply(
            advertised_columns as nat,
            buf@,
        ),
        r matches Err(e) ==> Err::<Seq<char>, QueryError>(e) == spec_resolve_reply(
            advertised_columns as nat,
            buf@,
        ),
{
    if advertised_columns != 1 {
        return Err(QueryError::ProtocolError);
    }
    if buf.len() == 0 {
        return Err(QueryError::NotFoundError);
    }
    let (payload, consumed) = match decode_single_frame(buf) {
        Err(e) => {
            return Err(e);
        },
        Ok(p) => p,
    };
    let text = match crate::cursor::field_to_string(payload.as_slice()) {
        None => {
            return Err(QueryError::EncodingError);
        },
        Some(text) => text,
    };
    if consumed < buf.len() {
        return Err(QueryError::ProtocolError);
    }
    Ok(text)
}

} // verus!
