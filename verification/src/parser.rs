//! Markdown document parsing: a stable content fingerprint of the raw text, a
//! delimited metadata block parsed into structured fields, conversion of the
//! markup body to collapsed plain text, and overlapping word chunks.

use crate::chunker::{chunk_text, chunks_of_text, num_chunks};
use crate::text::{
    chars_of, eq_str, find_char, index_of_char, is_collapsed, join_range, join_spc,
    lemma_index_of_char,
    lemma_collapse_idempotent, find_first, find_sub, split_lines, split_lines_spec, split_on_char,
    split_on_char_spec, split_words, split_ws, strip_quotes, strip_quotes_str, trim_spec, trim_str,
};
use pulldown_cmark::{Event, Tag, TagEnd};
use sha2::Digest;
use vstd::prelude::*;

verus! {

/// The hexadecimal digit characters, least significant last.
pub open spec fn hex_digit(n: int) -> char {
    seq!['0', '1', '2', '3', '4', '5', '6', '7', '8', '9', 'a', 'b', 'c', 'd', 'e', 'f'][n]
}

/// Lowercase hexadecimal encoding: two digits for each byte, in order.
pub open spec fn hex_of(bs: Seq<u8>) -> Seq<char>
    decreases bs.len(),
{
    if bs.len() == 0 {
        Seq::empty()
    } else {
        seq![hex_digit((bs[0] / 16) as int), hex_digit((bs[0] % 16) as int)] + hex_of(bs.drop_first())
    }
}

fn hex_char_str(n: u8) -> (r: &'static str)
    requires
        n < 16,
    ensures
        r@ == seq![hex_digit(n as int)],
{
    proof {
        reveal_strlit("0");
        reveal_strlit("1");
        reveal_strlit("2");
        reveal_strlit("3");
        reveal_strlit("4");
        reveal_strlit("5");
        reveal_strlit("6");
        reveal_strlit("7");
        reveal_strlit("8");
        reveal_strlit("9");
        reveal_strlit("a");
        reveal_strlit("b");
        reveal_strlit("c");
        reveal_strlit("d");
        reveal_strlit("e");
        reveal_strlit("f");
    }
    match n {
        0 => "0",
        1 => "1",
        2 => "2",
        3 => "3",
        4 => "4",
        5 => "5",
        6 => "6",
        7 => "7",
        8 => "8",
        9 => "9",
        10 => "a",
        11 => "b",
        12 => "c",
        13 => "d",
        14 => "e",
        _ => "f",
    }
}

/// Encodes bytes as lowercase hexadecimal text.
pub fn encode(bytes: &Vec<u8>) -> (r: String)
    ensures
        r@ == hex_of(bytes@),
{
    let n = bytes.len();
    let mut r = String::new();
    let mut i: usize = 0;
    proof {
        assert(bytes@.subrange(0, n as int) =~= bytes@);
    }
    while i < n
        invariant
            n == bytes.len(),
            i <= n,
            r@ + hex_of(bytes@.subrange(i as int, n as int)) == hex_of(bytes@),
        decreases n - i,
    {
        let ghost rem = bytes@.subrange(i as int, n as int);
        proof {
            assert(rem.drop_first() =~= bytes@.subrange(i + 1, n as int));
        }
        let b = bytes[i];
        let ghost pre = r@;
        r.append(hex_char_str(b / 16));
        r.append(hex_char_str(b % 16));
        i += 1;
        proof {
            assert(r@ + hex_of(bytes@.subrange(i as int, n as int)) =~= pre + hex_of(rem));
        }
    }
    proof {
        assert(hex_of(bytes@.subrange(n as int, n as int)) =~= Seq::<char>::empty());
        assert(r@ + Seq::<char>::empty() =~= r@);
    }
    r
}

/// The SHA-256 digest of a text's bytes: a function of the text alone.
pub uninterp spec fn sha256_of(s: Seq<char>) -> Seq<u8>;

/// Relies on sha2's `Sha256`: the digest is 32 bytes and depends on the input
/// bytes alone.
#[verifier::external_body]
fn sha256_digest(s: &str) -> (r: Vec<u8>)
    ensures
        r@ == sha256_of(s@),
        r@.len() == 32,
{
    sha2::Sha256::digest(s.as_bytes()).to_vec()
}

/// The content fingerprint: the hex-encoded SHA-256 digest of the raw text,
/// computed before any normalization.
pub open spec fn fingerprint_of(s: Seq<char>) -> Seq<char> {
    hex_of(sha256_of(s))
}

/// Hex encoding writes two digits for each byte.
pub proof fn lemma_hex_len(bs: Seq<u8>)
    ensures
        hex_of(bs).len() == 2 * bs.len(),
    decreases bs.len(),
{
    if bs.len() > 0 {
        lemma_hex_len(bs.drop_first());
    }
}

/// Computes the content fingerprint of a raw document text: 64 hex digits.
pub fn compute_hash(content: &str) -> (r: String)
    ensures
        r@ == fingerprint_of(content@),
        r@.len() == 64,
{
    let digest = sha256_digest(content);
    proof {
        lemma_hex_len(digest@);
    }
    encode(&digest)
}

/// A markdown parse event, reduced to what plain-text extraction reads.
pub enum MdEvent {
    /// Ordinary text, kept verbatim; inside a code block this is the block's
    /// content, equally kept.
    Text(String),
    /// Inline code, kept verbatim.
    Code(String),
    /// A soft or hard line break.
    Brk,
    /// Start of a fenced or indented code block; the fence itself is markup
    /// and contributes nothing.
    CodeBlockStart,
    /// End of a code block.
    CodeBlockEnd,
    /// A structural boundary: a paragraph or heading begins or ends.
    Boundary,
    /// Any other markup event; contributes nothing.
    Other,
}

/// The markdown event stream of a text, reduced to this library's event
/// kinds: a function of the text alone.
pub uninterp spec fn md_events_of(s: Seq<char>) -> Seq<MdEvent>;

/// Relies on pulldown_cmark's `Parser`: the markdown event stream of the
/// input, reduced to the event kinds this library reads, in stream order.
#[verifier::external_body]
fn markdown_events(md: &str) -> (events: Vec<MdEvent>)
    ensures
        events@ == md_events_of(md@),
{
    pulldown_cmark::Parser::new(md).map(|e| match e {
        Event::Text(t) => MdEvent::Text(t.into_string()),
        Event::Code(c) => MdEvent::Code(c.into_string()),
        Event::SoftBreak | Event::HardBreak => MdEvent::Brk,
        Event::Start(Tag::CodeBlock(_)) => MdEvent::CodeBlockStart,
        Event::End(TagEnd::CodeBlock) => MdEvent::CodeBlockEnd,
        Event::Start(Tag::Paragraph) | Event::End(TagEnd::Paragraph) => MdEvent::Boundary,
        Event::Start(Tag::Heading { .. }) | Event::End(TagEnd::Heading(_)) => MdEvent::Boundary,
        _ => MdEvent::Other,
    }).collect()
}

/// The raw extracted text of an event stream: text — block code content
/// included — and inline code followed by a space, breaks as spaces,
/// structural boundaries as newlines, and all other markup dropped.
pub open spec fn raw_text(evs: Seq<MdEvent>) -> Seq<char>
    decreases evs.len(),
{
    if evs.len() == 0 {
        Seq::empty()
    } else {
        let rest = evs.drop_first();
        match evs[0] {
            MdEvent::Text(t) => t@ + seq![' '] + raw_text(rest),
            MdEvent::Code(c) => c@ + seq![' '] + raw_text(rest),
            MdEvent::Brk => seq![' '] + raw_text(rest),
            MdEvent::Boundary => seq!['\n'] + raw_text(rest),
            MdEvent::CodeBlockStart => raw_text(rest),
            MdEvent::CodeBlockEnd => raw_text(rest),
            MdEvent::Other => raw_text(rest),
        }
    }
}

/// Extracts the raw plain text of an event stream.
pub fn plain_from_events(events: &Vec<MdEvent>) -> (r: String)
    ensures
        r@ == raw_text(events@),
{
    let n = events.len();
    let mut text = String::new();
    let mut i: usize = 0;
    proof {
        assert(events@.subrange(0, n as int) =~= events@);
        reveal_strlit(" ");
        reveal_strlit("\n");
    }
    while i < n
        invariant
            n == events.len(),
            i <= n,
            text@ + raw_text(events@.subrange(i as int, n as int)) == raw_text(events@),
        decreases n - i,
    {
        let ghost rem = events@.subrange(i as int, n as int);
        let ghost pre = text@;
        proof {
            assert(rem.drop_first() =~= events@.subrange(i + 1, n as int));
            assert(rem[0] == events@[i as int]);
            reveal_strlit(" ");
            reveal_strlit("\n");
        }
        match &events[i] {
            MdEvent::Text(t) => {
                text.append(t.as_str());
                text.append(" ");
            },
            MdEvent::Code(c) => {
                text.append(c.as_str());
                text.append(" ");
            },
            MdEvent::Brk => {
                text.append(" ");
            },
            MdEvent::Boundary => {
                text.append("\n");
            },
            MdEvent::CodeBlockStart => {},
            MdEvent::CodeBlockEnd => {},
            MdEvent::Other => {},
        }
        i += 1;
        proof {
            assert(text@ + raw_text(events@.subrange(i as int, n as int)) =~= pre + raw_text(rem));
        }
    }
    proof {
        assert(raw_text(events@.subrange(n as int, n as int)) =~= Seq::<char>::empty());
        assert(text@ + Seq::<char>::empty() =~= text@);
    }
    text
}

/// Collapses whitespace: the words of the input joined by single spaces.
pub fn collapse_ws(s: &str) -> (r: String)
    ensures
        r@ == join_spc(split_ws(s@)),
        is_collapsed(r@),
{
    let words = split_words(s);
    proof {
        assert(words.deep_view().len() == words@.len());
        assert(words.deep_view().subrange(0, words@.len() as int) =~= words.deep_view());
        lemma_collapse_idempotent(s@);
    }
    join_range(&words, 0, words.len())
}

/// The plain text a markdown body denotes: the raw text of its event
/// stream, with whitespace collapsed to single spaces.
pub open spec fn plain_text_of(md: Seq<char>) -> Seq<char> {
    join_spc(split_ws(raw_text(md_events_of(md))))
}

/// Converts a markdown body to collapsed plain text: code content verbatim,
/// structural markers as word boundaries, all other markup discarded, and
/// whitespace collapsed to single spaces.
pub fn markdown_to_plain_text(md: &str) -> (r: String)
    ensures
        r@ == plain_text_of(md@),
        is_collapsed(r@),
{
    let events = markdown_events(md);
    let raw = plain_from_events(&events);
    collapse_ws(raw.as_str())
}

/// The ghost model of a parsed metadata block.
pub struct FmModel {
    /// The document title, when one was given.
    pub title: Option<Seq<char>>,
    /// The tag list, normalized.
    pub tags: Seq<Seq<char>>,
    /// The alias list, normalized.
    pub aliases: Seq<Seq<char>>,
}

/// The empty metadata: no title, no tags, no aliases.
pub open spec fn fm_init() -> FmModel {
    FmModel { title: None, tags: Seq::empty(), aliases: Seq::empty() }
}

/// A block-list item line: `- ` followed by the item.
pub open spec fn fm_is_item(t: Seq<char>) -> bool {
    t.len() >= 2 && t[0] == '-' && t[1] == ' '
}

/// The value of a block-list item line, trimmed and unquoted.
pub open spec fn fm_item_val(t: Seq<char>) -> Seq<char> {
    strip_quotes(trim_spec(t.subrange(2, t.len() as int)))
}

/// A flow list value: `[` items `]`.
pub open spec fn fm_is_flow(v: Seq<char>) -> bool {
    v.len() >= 2 && v[0] == '[' && v.last() == ']'
}

/// The items of a flow list value: the comma-separated pieces between the
/// brackets, each trimmed and unquoted; an empty interior is an empty list.
pub open spec fn fm_flow_items(v: Seq<char>) -> Seq<Seq<char>> {
    let inner = trim_spec(v.subrange(1, v.len() - 1));
    if inner.len() == 0 {
        Seq::empty()
    } else {
        split_on_char_spec(inner, ',').map_values(|x: Seq<char>| strip_quotes(trim_spec(x)))
    }
}

/// The items of a scalar tag value: its comma-separated pieces, trimmed.
pub open spec fn fm_scalar_items(v: Seq<char>) -> Seq<Seq<char>> {
    split_on_char_spec(v, ',').map_values(|x: Seq<char>| trim_spec(x))
}

/// Line-by-line metadata parsing. `pending` names the block list under
/// construction: 0 none, 1 tags, 2 aliases, 3 an ignored key's list. Blank
/// and `#`-comment lines are skipped; a `key: value` line sets its field
/// (an empty value opens a block list); a `- ` item line extends the pending
/// list; anything else is malformed and yields `None`.
pub open spec fn fm_lines(lines: Seq<Seq<char>>, st: FmModel, pending: int) -> Option<FmModel>
    decreases lines.len(),
{
    if lines.len() == 0 {
        Some(st)
    } else {
        let t = trim_spec(lines[0]);
        let rest = lines.drop_first();
        if t.len() == 0 || t[0] == '#' {
            fm_lines(rest, st, pending)
        } else if fm_is_item(t) {
            if pending == 1 {
                fm_lines(
                    rest,
                    FmModel { title: st.title, tags: st.tags.push(fm_item_val(t)), aliases: st.aliases },
                    pending,
                )
            } else if pending == 2 {
                fm_lines(
                    rest,
                    FmModel { title: st.title, tags: st.tags, aliases: st.aliases.push(fm_item_val(t)) },
                    pending,
                )
            } else if pending == 3 {
                fm_lines(rest, st, pending)
            } else {
                None
            }
        } else {
            match index_of_char(t, ':') {
                Some(ci) => {
                    let key = trim_spec(t.subrange(0, ci));
                    let val = trim_spec(t.subrange(ci + 1, t.len() as int));
                    if key == "title"@ {
                        fm_lines(
                            rest,
                            FmModel {
                                title: if val.len() == 0 {
                                    None
                                } else {
                                    Some(strip_quotes(val))
                                },
                                tags: st.tags,
                                aliases: st.aliases,
                            },
                            0,
                        )
                    } else if key == "tags"@ {
                        if val.len() == 0 {
                            fm_lines(
                                rest,
                                FmModel { title: st.title, tags: Seq::empty(), aliases: st.aliases },
                                1,
                            )
                        } else if fm_is_flow(val) {
                            fm_lines(
                                rest,
                                FmModel { title: st.title, tags: fm_flow_items(val), aliases: st.aliases },
                                0,
                            )
                        } else {
                            fm_lines(
                                rest,
                                FmModel { title: st.title, tags: fm_scalar_items(val), aliases: st.aliases },
                                0,
                            )
                        }
                    } else if key == "aliases"@ {
                        if val.len() == 0 {
                            fm_lines(
                                rest,
                                FmModel { title: st.title, tags: st.tags, aliases: Seq::empty() },
                                2,
                            )
                        } else if fm_is_flow(val) {
                            fm_lines(
                                rest,
                                FmModel { title: st.title, tags: st.tags, aliases: fm_flow_items(val) },
                                0,
                            )
                        } else {
                            fm_lines(
                                rest,
                                FmModel { title: st.title, tags: st.tags, aliases: seq![strip_quotes(val)] },
                                0,
                            )
                        }
                    } else {
                        fm_lines(rest, st, if val.len() == 0 { 3 } else { 0 })
                    }
                },
                None => None,
            }
        }
    }
}

/// The metadata denoted by a delimited block: the line-by-line parse, with
/// malformed input falling back to empty metadata.
pub open spec fn frontmatter_of(yaml: Seq<char>) -> FmModel {
    match fm_lines(split_lines_spec(yaml), fm_init(), 0) {
        Some(st) => st,
        None => fm_init(),
    }
}

/// Structured metadata extracted from a document's delimited header block.
#[derive(Debug, Clone)]
pub struct Frontmatter {
    /// The document title, when one was given.
    pub title: Option<String>,
    /// The tag list, normalized to one tag per entry.
    pub tags: Vec<String>,
    /// The alias list, normalized to one alias per entry.
    pub aliases: Vec<String>,
}

impl View for Frontmatter {
    type V = FmModel;

    open spec fn view(&self) -> FmModel {
        FmModel {
            title: self.title.deep_view(),
            tags: self.tags.deep_view(),
            aliases: self.aliases.deep_view(),
        }
    }
}

impl Default for Frontmatter {
    /// Empty metadata.
    fn default() -> (r: Frontmatter)
        ensures
            r@ == fm_init(),
    {
        let r = Frontmatter { title: None, tags: Vec::new(), aliases: Vec::new() };
        proof {
            assert(r@.tags =~= fm_init().tags);
            assert(r@.aliases =~= fm_init().aliases);
        }
        r
    }
}

fn items_from_pieces(pieces: &Vec<String>, strip: bool) -> (r: Vec<String>)
    ensures
        strip ==> r.deep_view() == pieces.deep_view().map_values(
            |x: Seq<char>| strip_quotes(trim_spec(x)),
        ),
        !strip ==> r.deep_view() == pieces.deep_view().map_values(|x: Seq<char>| trim_spec(x)),
{
    let n = pieces.len();
    let mut r: Vec<String> = Vec::new();
    let mut i: usize = 0;
    while i < n
        invariant
            n == pieces.len(),
            i <= n,
            pieces.deep_view().len() == n,
            strip ==> r.deep_view() == pieces.deep_view().subrange(0, i as int).map_values(
                |x: Seq<char>| strip_quotes(trim_spec(x)),
            ),
            !strip ==> r.deep_view() == pieces.deep_view().subrange(0, i as int).map_values(
                |x: Seq<char>| trim_spec(x),
            ),
        decreases n - i,
    {
        let ghost pre = r.deep_view();
        let t = trim_str(pieces[i].as_str());
        if strip {
            r.push(strip_quotes_str(t.as_str()));
        } else {
            r.push(t);
        }
        i += 1;
        proof {
            assert(pieces.deep_view()[i - 1] == pieces@[i - 1]@);
            if strip {
                let f = |x: Seq<char>| strip_quotes(trim_spec(x));
                assert(pieces.deep_view().subrange(0, i as int).map_values(f) =~= pieces.deep_view()
                    .subrange(0, i - 1).map_values(f).push(f(pieces.deep_view()[i - 1])));
                assert(r.deep_view() =~= pre.push(f(pieces.deep_view()[i - 1])));
            } else {
                let f = |x: Seq<char>| trim_spec(x);
                assert(pieces.deep_view().subrange(0, i as int).map_values(f) =~= pieces.deep_view()
                    .subrange(0, i - 1).map_values(f).push(f(pieces.deep_view()[i - 1])));
                assert(r.deep_view() =~= pre.push(f(pieces.deep_view()[i - 1])));
            }
        }
    }
    proof {
        assert(pieces.deep_view().subrange(0, n as int) =~= pieces.deep_view());
    }
    r
}

/// Parses the text of a delimited metadata block into structured metadata.
/// Malformed metadata is not an error: it yields empty metadata.
pub fn parse_frontmatter_yaml(yaml: &str) -> (fm: Frontmatter)
    ensures
        fm@ == frontmatter_of(yaml@),
{
    let lines = split_lines(yaml);
    let n = lines.len();
    let mut title: Option<String> = None;
    let mut tags: Vec<String> = Vec::new();
    let mut aliases: Vec<String> = Vec::new();
    let mut pending: u8 = 0;
    let mut i: usize = 0;
    proof {
        assert(lines.deep_view().subrange(0, n as int) =~= lines.deep_view());
        let st0 = FmModel {
            title: title.deep_view(),
            tags: tags.deep_view(),
            aliases: aliases.deep_view(),
        };
        assert(st0.tags =~= fm_init().tags);
        assert(st0.aliases =~= fm_init().aliases);
        assert(st0 == fm_init());
    }
    while i < n
        invariant
            n == lines.len(),
            lines.deep_view().len() == n,
            lines.deep_view() == split_lines_spec(yaml@),
            i <= n,
            pending <= 3,
            fm_lines(
                lines.deep_view().subrange(i as int, n as int),
                FmModel {
                    title: title.deep_view(),
                    tags: tags.deep_view(),
                    aliases: aliases.deep_view(),
                },
                pending as int,
            ) == fm_lines(lines.deep_view(), fm_init(), 0),
        decreases n - i,
    {
        let ghost rem = lines.deep_view().subrange(i as int, n as int);
        let ghost st_in = FmModel {
            title: title.deep_view(),
            tags: tags.deep_view(),
            aliases: aliases.deep_view(),
        };
        let ghost p_in = pending as int;
        proof {
            assert(rem.drop_first() =~= lines.deep_view().subrange(i + 1, n as int));
            assert(rem[0] == lines.deep_view()[i as int]);
            assert(lines.deep_view()[i as int] == lines@[i as int]@);
        }
        let t = trim_str(lines[i].as_str());
        let tl = t.as_str().unicode_len();
        let ghost tsp = trim_spec(lines.deep_view()[i as int]);
        proof {
            assert(t@ == tsp);
        }
        if tl == 0 || t.as_str().get_char(0) == '#' {
            // blank or comment line: skipped, the pending list stays open
            proof {
                assert(fm_lines(rem, st_in, p_in) == fm_lines(rem.drop_first(), st_in, p_in));
            }
        } else if tl >= 2 && t.as_str().get_char(0) == '-' && t.as_str().get_char(1) == ' ' {
            proof {
                assert(fm_is_item(tsp));
            }
            if pending == 1 || pending == 2 {
                let item_t = trim_str(t.as_str().substring_char(2, tl));
                let item = strip_quotes_str(item_t.as_str());
                proof {
                    assert(item@ == fm_item_val(tsp));
                }
                if pending == 1 {
                    let ghost pre = tags.deep_view();
                    tags.push(item);
                    proof {
                        assert(tags.deep_view() =~= pre.push(fm_item_val(tsp)));
                        let st2 = FmModel {
                            title: title.deep_view(),
                            tags: tags.deep_view(),
                            aliases: aliases.deep_view(),
                        };
                        assert(fm_lines(rem, st_in, p_in) == fm_lines(rem.drop_first(), st2, p_in));
                    }
                } else {
                    let ghost pre = aliases.deep_view();
                    aliases.push(item);
                    proof {
                        assert(aliases.deep_view() =~= pre.push(fm_item_val(tsp)));
                        let st2 = FmModel {
                            title: title.deep_view(),
                            tags: tags.deep_view(),
                            aliases: aliases.deep_view(),
                        };
                        assert(fm_lines(rem, st_in, p_in) == fm_lines(rem.drop_first(), st2, p_in));
                    }
                }
            } else if pending == 3 {
                // item of an ignored key's list: skipped
                proof {
                    assert(fm_lines(rem, st_in, p_in) == fm_lines(rem.drop_first(), st_in, p_in));
                }
            } else {
                // a list item with no list open: malformed metadata
                proof {
                    assert(fm_lines(rem, st_in, p_in) is None);
                    assert(fm_lines(lines.deep_view(), fm_init(), 0) is None);
                    assert(frontmatter_of(yaml@) == fm_init());
                }
                let d = Frontmatter::default();
                proof {
                    assert(d@ == fm_init());
                }
                return d;
            }
        } else {
            let tc = chars_of(t.as_str());
            match find_char(&tc, ':') {
                Some(ci) => {
                    proof {
                        lemma_index_of_char(tsp, ':');
                        assert(index_of_char(tsp, ':') == Some(ci as int));
                        assert(0 <= ci < tsp.len());
                    }
                    let key = trim_str(t.as_str().substring_char(0, ci));
                    let val = trim_str(t.as_str().substring_char(ci + 1, tl));
                    let vl = val.as_str().unicode_len();
                    let ghost keysp = trim_spec(tsp.subrange(0, ci as int));
                    let ghost valsp = trim_spec(tsp.subrange(ci + 1, tsp.len() as int));
                    proof {
                        assert(key@ == keysp);
                        assert(val@ == valsp);
                    }
                    if eq_str(key.as_str(), "title") {
                        if vl == 0 {
                            title = None;
                        } else {
                            title = Some(strip_quotes_str(val.as_str()));
                        }
                        pending = 0;
                        proof {
                            let st2 = FmModel {
                                title: title.deep_view(),
                                tags: tags.deep_view(),
                                aliases: aliases.deep_view(),
                            };
                            assert(st2.title == (if valsp.len() == 0 {
                                None
                            } else {
                                Some(strip_quotes(valsp))
                            }));
                            assert(fm_lines(rem, st_in, p_in) == fm_lines(rem.drop_first(), st2, 0));
                        }
                    } else if eq_str(key.as_str(), "tags") {
                        if vl == 0 {
                            tags = Vec::new();
                            pending = 1;
                            proof {
                                assert(tags.deep_view() =~= Seq::<Seq<char>>::empty());
                                let st2 = FmModel {
                                    title: title.deep_view(),
                                    tags: tags.deep_view(),
                                    aliases: aliases.deep_view(),
                                };
                                assert(fm_lines(rem, st_in, p_in) == fm_lines(
                                    rem.drop_first(),
                                    st2,
                                    1,
                                ));
                            }
                        } else if vl >= 2 && val.as_str().get_char(0) == '[' && val.as_str()
                            .get_char(vl - 1) == ']' {
                            proof {
                                assert(fm_is_flow(valsp));
                            }
                            let inner = trim_str(val.as_str().substring_char(1, vl - 1));
                            if inner.as_str().unicode_len() == 0 {
                                tags = Vec::new();
                                proof {
                                    assert(tags.deep_view() =~= Seq::<Seq<char>>::empty());
                                    assert(tags.deep_view() =~= fm_flow_items(valsp));
                                }
                            } else {
                                let pieces = split_on_char(inner.as_str(), ',');
                                tags = items_from_pieces(&pieces, true);
                                proof {
                                    assert(tags.deep_view() == fm_flow_items(valsp));
                                }
                            }
                            pending = 0;
                            proof {
                                let st2 = FmModel {
                                    title: title.deep_view(),
                                    tags: tags.deep_view(),
                                    aliases: aliases.deep_view(),
                                };
                                assert(st2.tags == fm_flow_items(valsp));
                                assert(fm_lines(rem, st_in, p_in) == fm_lines(
                                    rem.drop_first(),
                                    st2,
                                    0,
                                ));
                            }
                        } else {
                            let pieces = split_on_char(val.as_str(), ',');
                            tags = items_from_pieces(&pieces, false);
                            pending = 0;
                            proof {
                                assert(tags.deep_view() == fm_scalar_items(valsp));
                                let st2 = FmModel {
                                    title: title.deep_view(),
                                    tags: tags.deep_view(),
                                    aliases: aliases.deep_view(),
                                };
                                assert(fm_lines(rem, st_in, p_in) == fm_lines(
                                    rem.drop_first(),
                                    st2,
                                    0,
                                ));
                            }
                        }
                    } else if eq_str(key.as_str(), "aliases") {
                        if vl == 0 {
                            aliases = Vec::new();
                            pending = 2;
                            proof {
                                assert(aliases.deep_view() =~= Seq::<Seq<char>>::empty());
                                let st2 = FmModel {
                                    title: title.deep_view(),
                                    tags: tags.deep_view(),
                                    aliases: aliases.deep_view(),
                                };
                                assert(fm_lines(rem, st_in, p_in) == fm_lines(
                                    rem.drop_first(),
                                    st2,
                                    2,
                                ));
                            }
                        } else if vl >= 2 && val.as_str().get_char(0) == '[' && val.as_str()
                            .get_char(vl - 1) == ']' {
                            proof {
                                assert(fm_is_flow(valsp));
                            }
                            let inner = trim_str(val.as_str().substring_char(1, vl - 1));
                            if inner.as_str().unicode_len() == 0 {
                                aliases = Vec::new();
                                proof {
                                    assert(aliases.deep_view() =~= Seq::<Seq<char>>::empty());
                                    assert(aliases.deep_view() =~= fm_flow_items(valsp));
                                }
                            } else {
                                let pieces = split_on_char(inner.as_str(), ',');
                                aliases = items_from_pieces(&pieces, true);
                                proof {
                                    assert(aliases.deep_view() == fm_flow_items(valsp));
                                }
                            }
                            pending = 0;
                            proof {
                                let st2 = FmModel {
                                    title: title.deep_view(),
                                    tags: tags.deep_view(),
                                    aliases: aliases.deep_view(),
                                };
                                assert(st2.aliases == fm_flow_items(valsp));
                                assert(fm_lines(rem, st_in, p_in) == fm_lines(
                                    rem.drop_first(),
                                    st2,
                                    0,
                                ));
                            }
                        } else {
                            let mut single: Vec<String> = Vec::new();
                            single.push(strip_quotes_str(val.as_str()));
                            aliases = single;
                            pending = 0;
                            proof {
                                assert(aliases.deep_view() =~= seq![strip_quotes(valsp)]);
                                let st2 = FmModel {
                                    title: title.deep_view(),
                                    tags: tags.deep_view(),
                                    aliases: aliases.deep_view(),
                                };
                                assert(fm_lines(rem, st_in, p_in) == fm_lines(
                                    rem.drop_first(),
                                    st2,
                                    0,
                                ));
                            }
                        }
                    } else {
                        pending = if vl == 0 {
                            3
                        } else {
                            0
                        };
                        proof {
                            assert(keysp != "title"@ && keysp != "tags"@ && keysp != "aliases"@);
                            assert(fm_lines(rem, st_in, p_in) == fm_lines(
                                rem.drop_first(),
                                st_in,
                                pending as int,
                            ));
                        }
                    }
                },
                None => {
                    // a nonempty line with no key separator: malformed metadata
                    proof {
                        lemma_index_of_char(tsp, ':');
                        assert(index_of_char(tsp, ':') is None);
                        assert(fm_lines(rem, st_in, p_in) is None);
                        assert(fm_lines(lines.deep_view(), fm_init(), 0) is None);
                        assert(frontmatter_of(yaml@) == fm_init());
                    }
                    let d = Frontmatter::default();
                    proof {
                        assert(d@ == fm_init());
                    }
                    return d;
                },
            }
        }
        i += 1;
    }
    proof {
        assert(lines.deep_view().subrange(n as int, n as int).len() == 0);
    }
    Frontmatter { title, tags, aliases }
}

/// The closing delimiter of a metadata block: a newline followed by `---`.
pub open spec fn fm_delim() -> Seq<char> {
    seq!['\n', '-', '-', '-']
}

/// The trimmed text opens a metadata block: it begins with `---`.
pub open spec fn has_fm_open(t: Seq<char>) -> bool {
    t.len() >= 3 && t[0] == '-' && t[1] == '-' && t[2] == '-'
}

/// Where a document's metadata block and body stand: the metadata text (when
/// a delimited block opens and closes) and the remaining body, trimmed.
pub open spec fn fm_block_of(content: Seq<char>) -> (Option<Seq<char>>, Seq<char>) {
    let t = trim_spec(content);
    if !has_fm_open(t) {
        (None, t)
    } else {
        let rest = t.subrange(3, t.len() as int);
        match find_sub(rest, fm_delim()) {
            Some(j) => (
                Some(rest.subrange(0, j)),
                trim_spec(rest.subrange(j + 4, rest.len() as int)),
            ),
            None => (None, t),
        }
    }
}

/// Splits a document into its parsed metadata and its body. A document with
/// no metadata block, or an unclosed one, has empty metadata and its whole
/// trimmed text as body.
pub fn extract_frontmatter(content: &str) -> (r: (Frontmatter, String))
    ensures
        r.1@ == fm_block_of(content@).1,
        fm_block_of(content@).0 matches Some(y) ==> r.0@ == frontmatter_of(y),
        fm_block_of(content@).0 is None ==> r.0@ == fm_init(),
{
    let t = trim_str(content);
    let tl = t.as_str().unicode_len();
    if tl < 3 || t.as_str().get_char(0) != '-' || t.as_str().get_char(1) != '-' || t.as_str()
        .get_char(2) != '-' {
        proof {
            assert(!has_fm_open(trim_spec(content@)));
        }
        let d = Frontmatter::default();
        return (d, t);
    }
    proof {
        assert(has_fm_open(trim_spec(content@)));
    }
    let rest = t.as_str().substring_char(3, tl);
    let ghost restsp = trim_spec(content@).subrange(3, trim_spec(content@).len() as int);
    proof {
        assert(rest@ == restsp);
    }
    let rc = chars_of(rest);
    let mut pat: Vec<char> = Vec::new();
    pat.push('\n');
    pat.push('-');
    pat.push('-');
    pat.push('-');
    proof {
        assert(pat@ =~= fm_delim());
    }
    match find_first(&rc, &pat) {
        Some(j) => {
            let rl = rest.unicode_len();
            proof {
                assert(crate::text::match_at(restsp, fm_delim(), j as int));
            }
            let yaml = rest.substring_char(0, j);
            let body = trim_str(rest.substring_char(j + 4, rl));
            let fmv = parse_frontmatter_yaml(yaml);
            (fmv, body)
        },
        None => {
            let d = Frontmatter::default();
            (d, t)
        },
    }
}

/// One parse error kind for a document source.
#[derive(Debug, Clone)]
pub enum ParseError {
    /// The source could not be read.
    Io(String),
    /// The document was not valid markdown.
    InvalidMarkdown,
}

/// The outcome of parsing one document: its metadata, collapsed plain text,
/// overlapping chunks, and raw-content fingerprint.
#[derive(Debug, Clone)]
pub struct ParsedDocument {
    /// Structured metadata from the document's delimited header block.
    pub frontmatter: Frontmatter,
    /// The body as collapsed plain text.
    pub content: String,
    /// The overlapping word chunks of the plain text, in order.
    pub chunks: Vec<String>,
    /// The fingerprint of the raw content, before any normalization.
    pub content_hash: String,
}

/// Parses markdown documents into plain text, chunks and a fingerprint.
pub struct MarkdownParser;

impl MarkdownParser {
    /// A parser; it holds no state.
    pub fn new() -> MarkdownParser {
        MarkdownParser
    }

    /// Parses a raw document text: the fingerprint of the raw text, the
    /// metadata of its delimited header block (empty on malformed metadata),
    /// the body as collapsed plain text, and the text's overlapping chunks.
    /// No input is rejected.
    pub fn parse_content(&self, content: &str) -> (r: Result<ParsedDocument, ParseError>)
        ensures
            r is Ok,
            r matches Ok(d) ==> {
                &&& d.content_hash@ == fingerprint_of(content@)
                &&& d.content_hash@.len() == 64
                &&& d.frontmatter@ == (match fm_block_of(content@).0 {
                    Some(y) => frontmatter_of(y),
                    None => fm_init(),
                })
                &&& d.content@ == plain_text_of(fm_block_of(content@).1)
                &&& is_collapsed(d.content@)
                &&& d.chunks.deep_view() == chunks_of_text(d.content@)
            },
    {
        let (frontmatter, body) = extract_frontmatter(content);
        let plain_text = markdown_to_plain_text(body.as_str());
        let chunks = self.chunk_text(plain_text.as_str());
        let content_hash = compute_hash(content);
        Ok(ParsedDocument { frontmatter, content: plain_text, chunks, content_hash })
    }

    /// Splits plain text into overlapping word chunks.
    pub fn chunk_text(&self, text: &str) -> (r: Vec<String>)
        ensures
            r.deep_view() == chunks_of_text(text@),
            r.len() == num_chunks(split_ws(text@).len() as int),
    {
        chunk_text(text)
    }
}

/// Fingerprint stability: the fingerprint is a function of the raw text
/// alone, so parsing the same raw text twice yields the same fingerprint.
pub proof fn lemma_fingerprint_stable(a: Seq<char>, b: Seq<char>)
    requires
        a == b,
    ensures
        fingerprint_of(a) == fingerprint_of(b),
{
}

} // verus!
