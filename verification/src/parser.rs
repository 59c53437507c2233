//! The assignment parser: classifies each line of the input as ignorable or
//! as a candidate assignment, splits candidates on the first `=`, strips
//! inline `#` comments from the value, enforces a value-length ceiling, and
//! collects the entries into a key-ordered [`ConfigMap`]. Parsing is
//! fail-fast: the first structural error aborts the whole parse.

use crate::errors::{ParseError, ParseErrorView};
use crate::strmap::StrMap;
use crate::text::{find_char, first_at, lemma_first_at, split_at_char, split_str, trim_of,
    trim_spec};
use vstd::prelude::*;

verus! {

/// A flat configuration: dotted-string keys mapped to string values, keys
/// unique and ordered lexicographically.
pub type ConfigMap = StrMap<String>;

/// The ceiling on the length of a stored value, in characters.
pub const MAX_VALUE_LEN: usize = 4096;

/// A line is ignorable when, after trimming, it is empty or begins with `#`,
/// `;` or `-`.
pub open spec fn is_ignorable(line: Seq<char>) -> bool {
    let t = trim_spec(line);
    t.len() == 0 || t[0] == '#' || t[0] == ';' || t[0] == '-'
}

/// A trailing carriage return (from a CRLF line ending) is not part of a line.
pub open spec fn strip_cr(line: Seq<char>) -> Seq<char> {
    if line.len() > 0 && line.last() == '\r' {
        line.drop_last()
    } else {
        line
    }
}

/// The value up to (excluding) its first `#`: inline comments are stripped.
pub open spec fn cut_inline_comment(v: Seq<char>) -> Seq<char> {
    v.take(first_at(v, '#'))
}

/// The lines of a text: newline-delimited, trailing carriage returns dropped.
pub open spec fn spec_lines(text: Seq<char>) -> Seq<Seq<char>> {
    split_at_char(text, '\n').map_values(|l: Seq<char>| strip_cr(l))
}

/// What a single line contributes to a parse.
pub enum LineClass {
    /// Blank or comment-prefixed: contributes nothing.
    Ignorable,
    /// A trimmed key and its trimmed, comment-stripped value.
    Entry(Seq<char>, Seq<char>),
    /// A structural error that aborts the parse.
    Bad(ParseErrorView),
}

/// Classifies one line; `number` is its 1-indexed position, `limit` the
/// value-length ceiling.
pub open spec fn classify_line(line: Seq<char>, number: int, limit: int) -> LineClass {
    if is_ignorable(line) {
        LineClass::Ignorable
    } else {
        let e = first_at(line, '=');
        if e == line.len() {
            LineClass::Bad(ParseErrorView::InvalidLine { line_number: number, content: line })
        } else {
            let key = trim_spec(line.take(e));
            let value = trim_spec(cut_inline_comment(line.skip(e + 1)));
            if value.len() > limit {
                LineClass::Bad(
                    ParseErrorView::ValueTooLong {
                        line_number: number,
                        key: key,
                        length: value.len() as int,
                    },
                )
            } else {
                LineClass::Entry(key, value)
            }
        }
    }
}

/// The parse of the first `n` lines: the entry mapping, last write winning on
/// duplicate keys, or the first structural error.
pub open spec fn parse_upto(lines: Seq<Seq<char>>, n: int, limit: int) -> Result<
    Map<Seq<char>, Seq<char>>,
    ParseErrorView,
>
    decreases n,
{
    if n <= 0 {
        Ok(Map::empty())
    } else {
        match parse_upto(lines, n - 1, limit) {
            Err(e) => Err(e),
            Ok(m) => match classify_line(lines[n - 1], n, limit) {
                LineClass::Ignorable => Ok(m),
                LineClass::Entry(k, v) => Ok(m.insert(k, v)),
                LineClass::Bad(e) => Err(e),
            },
        }
    }
}

/// The parse of a whole text under a value-length ceiling.
pub open spec fn spec_parse(text: Seq<char>, limit: int) -> Result<
    Map<Seq<char>, Seq<char>>,
    ParseErrorView,
> {
    parse_upto(spec_lines(text), spec_lines(text).len() as int, limit)
}

/// A blank or comment-prefixed line contributes no entry, whether or not it
/// contains `=`: it classifies as ignorable, and blanking it out leaves the
/// parse of any prefix of the text unchanged.
pub proof fn lemma_ignorable_line_no_entry(lines: Seq<Seq<char>>, i: int, n: int, limit: int)
    requires
        0 <= i < lines.len(),
        is_ignorable(lines[i]),
        0 <= n <= lines.len(),
    ensures
        forall|number: int| classify_line(lines[i], number, limit) == LineClass::Ignorable,
        parse_upto(lines.update(i, Seq::empty()), n, limit) == parse_upto(lines, n, limit),
    decreases n,
{
    assert(trim_spec(Seq::<char>::empty()).len() == 0);
    assert(is_ignorable(Seq::<char>::empty()));
    if n > 0 {
        lemma_ignorable_line_no_entry(lines, i, n - 1, limit);
        let l2 = lines.update(i, Seq::<char>::empty());
        if n - 1 != i {
            assert(l2[n - 1] == lines[n - 1]);
        }
    }
}

/// The set of keys contributed by the first `n` lines.
pub open spec fn entry_keys(lines: Seq<Seq<char>>, n: int, limit: int) -> Set<Seq<char>> {
    Set::new(
        |k: Seq<char>|
            exists|i: int, v: Seq<char>|
                0 <= i < n && classify_line(lines[i], i + 1, limit) == LineClass::Entry(k, v),
    )
}

/// Where every line is ignorable or a well-shaped assignment within the
/// ceiling, parsing succeeds, and the mapping's keys are exactly the keys of
/// the assignment lines — so its size is the number of distinct such keys,
/// last write winning on duplicates.
pub proof fn lemma_parse_wellformed_lines(lines: Seq<Seq<char>>, n: int, limit: int)
    requires
        0 <= n <= lines.len(),
        forall|i: int|
            0 <= i < lines.len() ==> is_ignorable(lines[i]) || classify_line(
                lines[i],
                i + 1,
                limit,
            ) is Entry,
    ensures
        parse_upto(lines, n, limit) is Ok,
        parse_upto(lines, n, limit)->Ok_0.dom() == entry_keys(lines, n, limit),
    decreases n,
{
    if n > 0 {
        lemma_parse_wellformed_lines(lines, n - 1, limit);
        let m0 = parse_upto(lines, n - 1, limit)->Ok_0;
        match classify_line(lines[n - 1], n, limit) {
            LineClass::Ignorable => {
                assert(entry_keys(lines, n, limit) =~= entry_keys(lines, n - 1, limit)) by {
                    assert forall|k: Seq<char>| entry_keys(lines, n, limit).contains(k) implies
                        entry_keys(lines, n - 1, limit).contains(k) by {
                        let (i, v): (int, Seq<char>) = choose|i: int, v: Seq<char>|
                            0 <= i < n && classify_line(lines[i], i + 1, limit)
                                == LineClass::Entry(k, v);
                        assert(i < n - 1);
                        assert(entry_keys(lines, n - 1, limit).contains(k));
                    }
                    assert forall|k: Seq<char>| entry_keys(lines, n - 1, limit).contains(k) implies
                        entry_keys(lines, n, limit).contains(k) by {
                        let (i, v): (int, Seq<char>) = choose|i: int, v: Seq<char>|
                            0 <= i < n - 1 && classify_line(lines[i], i + 1, limit)
                                == LineClass::Entry(k, v);
                        assert(0 <= i < n && classify_line(lines[i], i + 1, limit)
                            == LineClass::Entry(k, v));
                    }
                }
            },
            LineClass::Entry(k, v) => {
                assert(parse_upto(lines, n, limit)->Ok_0 == m0.insert(k, v));
                assert(entry_keys(lines, n, limit) =~= entry_keys(lines, n - 1, limit).insert(
                    k,
                )) by {
                    assert forall|q: Seq<char>| entry_keys(lines, n, limit).contains(q) implies
                        entry_keys(lines, n - 1, limit).insert(k).contains(q) by {
                        let (i, w): (int, Seq<char>) = choose|i: int, w: Seq<char>|
                            0 <= i < n && classify_line(lines[i], i + 1, limit)
                                == LineClass::Entry(q, w);
                        if i < n - 1 {
                            assert(entry_keys(lines, n - 1, limit).contains(q));
                        } else {
                            assert(q == k);
                        }
                    }
                    assert forall|q: Seq<char>| entry_keys(lines, n - 1, limit).insert(k).contains(
                        q,
                    ) implies entry_keys(lines, n, limit).contains(q) by {
                        if q == k {
                            assert(classify_line(lines[n - 1], n, limit) == LineClass::Entry(k, v));
                            assert(entry_keys(lines, n, limit).contains(q));
                        } else {
                            let (i, w): (int, Seq<char>) = choose|i: int, w: Seq<char>|
                                0 <= i < n - 1 && classify_line(lines[i], i + 1, limit)
                                    == LineClass::Entry(q, w);
                            assert(0 <= i < n && classify_line(lines[i], i + 1, limit)
                                == LineClass::Entry(q, w));
                        }
                    }
                }
                assert(m0.insert(k, v).dom() =~= m0.dom().insert(k));
            },
            LineClass::Bad(e) => {
                assert(!is_ignorable(lines[n - 1]));
                assert(classify_line(lines[n - 1], n, limit) is Entry);
            },
        }
    } else {
        assert(entry_keys(lines, 0, limit) =~= Set::<Seq<char>>::empty());
        assert(parse_upto(lines, 0, limit)->Ok_0.dom() =~= Set::<Seq<char>>::empty());
    }
}

/// [`lemma_parse_wellformed_lines`] stated of whole texts: where every line
/// of the text is ignorable or a well-shaped assignment within the ceiling,
/// the parse succeeds and maps exactly the assignment lines' keys, so the
/// mapping's size is the number of distinct keys among them.
pub proof fn lemma_parse_wellformed_text(text: Seq<char>, limit: int)
    requires
        forall|i: int|
            0 <= i < spec_lines(text).len() ==> is_ignorable(#[trigger] spec_lines(text)[i])
                || classify_line(spec_lines(text)[i], i + 1, limit) is Entry,
    ensures
        spec_parse(text, limit) is Ok,
        spec_parse(text, limit)->Ok_0.dom() == entry_keys(
            spec_lines(text),
            spec_lines(text).len() as int,
            limit,
        ),
{
    lemma_parse_wellformed_lines(spec_lines(text), spec_lines(text).len() as int, limit);
}

/// Every value a successful parse stores has its inline comment stripped (it
/// contains no `#`) and fits within the ceiling.
pub proof fn lemma_parse_value_shape(lines: Seq<Seq<char>>, n: int, limit: int)
    requires
        0 <= n,
        parse_upto(lines, n, limit) is Ok,
    ensures
        forall|k: Seq<char>|
            #[trigger] parse_upto(lines, n, limit)->Ok_0.contains_key(k) ==> parse_upto(
                lines,
                n,
                limit,
            )->Ok_0[k].len() <= limit,
        forall|k: Seq<char>, j: int|
            parse_upto(lines, n, limit)->Ok_0.contains_key(k) && 0 <= j < parse_upto(
                lines,
                n,
                limit,
            )->Ok_0[k].len() ==> #[trigger] parse_upto(lines, n, limit)->Ok_0[k][j] != '#',
    decreases n,
{
    if n > 0 {
        assert(parse_upto(lines, n - 1, limit) is Ok);
        lemma_parse_value_shape(lines, n - 1, limit);
        let m0 = parse_upto(lines, n - 1, limit)->Ok_0;
        match classify_line(lines[n - 1], n, limit) {
            LineClass::Ignorable => {},
            LineClass::Entry(k, v) => {
                let line = lines[n - 1];
                let e = first_at(line, '=');
                let u = line.skip(e + 1);
                let cut = cut_inline_comment(u);
                lemma_first_at(u, '#');
                assert(forall|j: int| 0 <= j < cut.len() ==> cut[j] != '#');
                crate::text::lemma_trim_preserves_absent(cut, '#');
                assert(v == trim_spec(cut));
                assert(forall|q: Seq<char>|
                    #[trigger] m0.insert(k, v).contains_key(q) ==> (q == k || m0.contains_key(q)));
            },
            LineClass::Bad(e) => {},
        }
    }
}

/// Once a line has failed, every longer parse reports the same error.
pub proof fn lemma_parse_error_persists(lines: Seq<Seq<char>>, n0: int, n: int, limit: int)
    requires
        0 <= n0 <= n,
        parse_upto(lines, n0, limit) is Err,
    ensures
        parse_upto(lines, n, limit) == parse_upto(lines, n0, limit),
    decreases n - n0,
{
    if n > n0 {
        lemma_parse_error_persists(lines, n0, n - 1, limit);
    }
}

/// Decides whether a line is ignorable: trimmed, it is empty or starts with
/// `#`, `;` or `-`.
pub fn is_ignorable_line(line: &str) -> (r: bool)
    ensures
        r == is_ignorable(line@),
{
    let t = trim_of(line);
    if t.unicode_len() == 0 {
        return true;
    }
    let c = t.get_char(0);
    c == '#' || c == ';' || c == '-'
}

/// Strips the inline trailing comment: everything from the first `#` on.
pub fn remove_inline_comment<'a>(value: &'a str) -> (r: &'a str)
    ensures
        r@ == cut_inline_comment(value@),
{
    let i = find_char(value, '#');
    proof {
        lemma_first_at(value@, '#');
        assert(value@.subrange(0, i as int) =~= value@.take(i as int));
    }
    value.substring_char(0, i)
}

/// Parses configuration text into a flat mapping, with the value-length
/// ceiling given as a parameter. The result is exactly [`spec_parse`] of the
/// input: fail-fast on the first structural error, last write winning on
/// duplicate keys.
pub fn parse_str_with_limit(input: &str, max_value_len: usize) -> (r: Result<ConfigMap, ParseError>)
    ensures
        match spec_parse(input@, max_value_len as int) {
            Ok(m) => r matches Ok(cm) && cm@ == m && cm.wf(),
            Err(e) => r matches Err(pe) && pe@ == e,
        },
{
    let raw_lines: Vec<String> = split_str(input, '\n');
    let ghost lines = spec_lines(input@);
    let total = raw_lines.len();
    let mut map: ConfigMap = StrMap::new();
    let mut idx: usize = 0;
    while idx < total
        invariant
            0 <= idx <= total == raw_lines@.len(),
            raw_lines.deep_view() == split_at_char(input@, '\n'),
            lines == spec_lines(input@),
            lines.len() == total,
            map.wf(),
            parse_upto(lines, idx as int, max_value_len as int) == Ok::<
                Map<Seq<char>, Seq<char>>,
                ParseErrorView,
            >(map@),
        decreases total - idx,
    {
        let ln: &str = raw_lines[idx].as_str();
        let n = ln.unicode_len();
        let line: &str = if n > 0 && ln.get_char(n - 1) == '\r' {
            let stripped = ln.substring_char(0, n - 1);
            proof {
                assert(stripped@ =~= ln@.drop_last());
            }
            stripped
        } else {
            ln
        };
        proof {
            assert(raw_lines.deep_view()[idx as int] == ln@);
            assert(line@ == strip_cr(ln@));
            assert(lines[idx as int] == strip_cr(split_at_char(input@, '\n')[idx as int]));
        }
        if !is_ignorable_line(line) {
            let nline = line.unicode_len();
            let e = find_char(line, '=');
            if e == nline {
                let err = ParseError::InvalidLine { line_number: idx + 1, content: line.to_owned() };
                proof {
                    assert(parse_upto(lines, idx as int + 1, max_value_len as int) == Err::<
                        Map<Seq<char>, Seq<char>>,
                        ParseErrorView,
                    >(err@));
                    lemma_parse_error_persists(
                        lines,
                        idx as int + 1,
                        lines.len() as int,
                        max_value_len as int,
                    );
                }
                return Err(err);
            }
            proof {
                lemma_first_at(line@, '=');
            }
            let raw_key = line.substring_char(0, e);
            let key = trim_of(raw_key);
            let raw_value = line.substring_char(e + 1, nline);
            let cut = remove_inline_comment(raw_value);
            let value = trim_of(cut);
            let vlen = value.unicode_len();
            proof {
                assert(raw_key@ =~= line@.take(e as int));
                assert(raw_value@ =~= line@.skip(e as int + 1));
            }
            if vlen > max_value_len {
                let err = ParseError::ValueTooLong {
                    line_number: idx + 1,
                    key: key.to_owned(),
                    length: vlen,
                };
                proof {
                    assert(parse_upto(lines, idx as int + 1, max_value_len as int) == Err::<
                        Map<Seq<char>, Seq<char>>,
                        ParseErrorView,
                    >(err@));
                    lemma_parse_error_persists(
                        lines,
                        idx as int + 1,
                        lines.len() as int,
                        max_value_len as int,
                    );
                }
                return Err(err);
            }
            map.insert(key.to_owned(), value.to_owned());
        }
        idx = idx + 1;
    }
    Ok(map)
}

/// Parses configuration text with the default value-length ceiling of
/// [`MAX_VALUE_LEN`] characters.
pub fn parse_str(input: &str) -> (r: Result<ConfigMap, ParseError>)
    ensures
        match spec_parse(input@, MAX_VALUE_LEN as int) {
            Ok(m) => r matches Ok(cm) && cm@ == m && cm.wf(),
            Err(e) => r matches Err(pe) && pe@ == e,
        },
{
    parse_str_with_limit(input, MAX_VALUE_LEN)
}

} // verus!
