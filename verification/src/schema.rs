//! The schema type system and validator: a closed set of value-type
//! descriptors parsed from textual type expressions, entries with
//! required/default policy, and validation of a configuration against a
//! schema, aggregating all violations instead of stopping at the first.

use crate::errors::{ParseError, ParseErrorView};
use crate::parser::{parse_str, spec_parse, ConfigMap, MAX_VALUE_LEN};
use crate::strmap::StrMap;
use crate::text::{lemma_lex_lt_irrefl, lemma_lex_lt_trans, lex_lt};
use crate::text::{all_digits, dec_value, eq_ignore_ascii, first_at, find_char, is_digit,
    lemma_first_at, parse_decimal_capped, split_at_char, split_str, str_eq,
    str_eq_ignore_ascii_case, trim_of, trim_spec};
use vstd::prelude::*;
use vstd::string::StrSliceExecFns;

verus! {

/// A value-type descriptor: free or length-bounded string, boolean, integer,
/// floating-point number, or an enumeration of literal strings.
#[derive(Debug, Clone, PartialEq, Eq)]
pub enum SchemaType {
    String(Option<usize>),
    Bool,
    Int,
    Float,
    Enum(Vec<String>),
}

/// Mathematical mirror of [`SchemaType`].
pub enum SchemaTypeView {
    String(Option<int>),
    Bool,
    Int,
    Float,
    Enum(Seq<Seq<char>>),
}

impl View for SchemaType {
    type V = SchemaTypeView;

    open spec fn view(&self) -> SchemaTypeView {
        match self {
            SchemaType::String(m) => SchemaTypeView::String(
                match m {
                    Some(n) => Some(*n as int),
                    None => None,
                },
            ),
            SchemaType::Bool => SchemaTypeView::Bool,
            SchemaType::Int => SchemaTypeView::Int,
            SchemaType::Float => SchemaTypeView::Float,
            SchemaType::Enum(vs) => SchemaTypeView::Enum(vs.deep_view()),
        }
    }
}

impl DeepView for SchemaType {
    type V = SchemaTypeView;

    open spec fn deep_view(&self) -> SchemaTypeView {
        self.view()
    }
}

/// One schema field: its type, whether it must be present, and an optional
/// default inserted when it is absent. A required entry never carries a
/// default; the schema parser rejects that contradiction.
#[derive(Debug, Clone, PartialEq, Eq)]
pub struct SchemaEntry {
    pub typ: SchemaType,
    pub required: bool,
    pub default: Option<String>,
}

/// Mathematical mirror of [`SchemaEntry`].
pub struct SchemaEntryView {
    pub typ: SchemaTypeView,
    pub required: bool,
    pub default: Option<Seq<char>>,
}

impl View for SchemaEntry {
    type V = SchemaEntryView;

    open spec fn view(&self) -> SchemaEntryView {
        SchemaEntryView {
            typ: self.typ.view(),
            required: self.required,
            default: match &self.default {
                Some(d) => Some(d@),
                None => None,
            },
        }
    }
}

impl DeepView for SchemaEntry {
    type V = SchemaEntryView;

    open spec fn deep_view(&self) -> SchemaEntryView {
        self.view()
    }
}

/// A parsed schema: field names mapped to their entries, keys unique and
/// ordered.
pub type SchemaMap = StrMap<SchemaEntry>;

/// Lowercased (ASCII) text equals `true` or `false`.
pub open spec fn is_bool_text(s: Seq<char>) -> bool {
    eq_ignore_ascii(s, "true"@) || eq_ignore_ascii(s, "false"@)
}

/// The text without one leading `+` or `-`.
pub open spec fn strip_sign(s: Seq<char>) -> Seq<char> {
    if s.len() > 0 && (s[0] == '+' || s[0] == '-') {
        s.drop_first()
    } else {
        s
    }
}

/// A base-10 signed integer literal whose value fits a 64-bit signed word:
/// an optional sign, then digits, no surrounding whitespace.
pub open spec fn is_int_text(s: Seq<char>) -> bool {
    let d = strip_sign(s);
    let neg = s.len() > 0 && s[0] == '-';
    d.len() > 0 && all_digits(d) && (if neg {
        dec_value(d) <= 0x8000_0000_0000_0000
    } else {
        dec_value(d) <= 0x7fff_ffff_ffff_ffff
    })
}

/// Digits with at most one `.` among them, at least one digit present.
pub open spec fn is_mantissa(s: Seq<char>) -> bool {
    &&& s.len() > 0
    &&& forall|i: int| 0 <= i < s.len() ==> (is_digit(s[i]) || s[i] == '.')
    &&& exists|i: int| 0 <= i < s.len() && is_digit(s[i])
    &&& forall|i: int, j: int| 0 <= i < j < s.len() ==> !(s[i] == '.' && s[j] == '.')
}

/// An optionally signed nonempty run of digits.
pub open spec fn is_exponent(s: Seq<char>) -> bool {
    strip_sign(s).len() > 0 && all_digits(strip_sign(s))
}

/// Index of the first exponent marker `e` or `E`, or the length when absent.
pub open spec fn first_exp_at(s: Seq<char>) -> int
    decreases s.len(),
{
    if s.len() == 0 {
        0
    } else if s[0] == 'e' || s[0] == 'E' {
        0
    } else {
        1 + first_exp_at(s.drop_first())
    }
}

pub proof fn lemma_first_exp_at_is(s: Seq<char>, k: int)
    requires
        0 <= k <= s.len(),
        forall|i: int| 0 <= i < k ==> s[i] != 'e' && s[i] != 'E',
        k < s.len() ==> (s[k] == 'e' || s[k] == 'E'),
    ensures
        first_exp_at(s) == k,
    decreases k,
{
    if s.len() > 0 && k > 0 {
        assert forall|i: int| 0 <= i < k - 1 implies s.drop_first()[i] != 'e' && s.drop_first()[i]
            != 'E' by {
            assert(s.drop_first()[i] == s[i + 1]);
        }
        if k < s.len() {
            assert(s.drop_first()[k - 1] == s[k]);
        }
        lemma_first_exp_at_is(s.drop_first(), k - 1);
    }
}

/// A decimal floating-point literal: optional sign, a mantissa of digits with
/// at most one point, and an optional `e`/`E` exponent with its own optional
/// sign. Word forms such as infinities and not-a-number are not accepted.
pub open spec fn is_float_text(s: Seq<char>) -> bool {
    let b = strip_sign(s);
    let e = first_exp_at(b);
    if e == b.len() {
        is_mantissa(b)
    } else {
        is_mantissa(b.take(e)) && is_exponent(b.skip(e + 1))
    }
}

/// Whether a value's text satisfies a type descriptor.
pub open spec fn type_accepts(t: SchemaTypeView, s: Seq<char>) -> bool {
    match t {
        SchemaTypeView::String(m) => match m {
            None => true,
            Some(max) => s.len() <= max,
        },
        SchemaTypeView::Bool => is_bool_text(s),
        SchemaTypeView::Int => is_int_text(s),
        SchemaTypeView::Float => is_float_text(s),
        SchemaTypeView::Enum(vs) => vs.contains(s),
    }
}

/// The bounded-string form: `string(` digits `)`, the digits naming a length
/// cap that fits the machine's word.
pub open spec fn is_bounded_string_form(s: Seq<char>) -> bool {
    &&& s.len() > 8
    &&& s.take(7) == "string("@
    &&& s.last() == ')'
    &&& bounded_digits(s).len() > 0
    &&& all_digits(bounded_digits(s))
    &&& dec_value(bounded_digits(s)) <= usize::MAX as int
}

/// The digits between `string(` and `)`.
pub open spec fn bounded_digits(s: Seq<char>) -> Seq<char> {
    s.subrange(7, s.len() - 1)
}

/// The enumeration form: `[` ... `]`.
pub open spec fn is_enum_form(s: Seq<char>) -> bool {
    s.len() >= 2 && s[0] == '[' && s.last() == ']'
}

/// All leading and trailing double quotes removed.
pub open spec fn strip_quotes(s: Seq<char>) -> Seq<char>
    decreases s.len(),
{
    if s.len() > 0 && s[0] == '"' {
        strip_quotes(s.drop_first())
    } else if s.len() > 0 && s.last() == '"' {
        strip_quotes(s.drop_last())
    } else {
        s
    }
}

/// The enumeration's literals: each piece trimmed and unquoted, empty pieces
/// dropped, order kept.
pub open spec fn enum_variants(pieces: Seq<Seq<char>>) -> Seq<Seq<char>>
    decreases pieces.len(),
{
    if pieces.len() == 0 {
        Seq::empty()
    } else {
        let v = strip_quotes(trim_spec(pieces[0]));
        let rest = enum_variants(pieces.drop_first());
        if v.len() == 0 {
            rest
        } else {
            seq![v] + rest
        }
    }
}

pub proof fn lemma_enum_variants_concat(a: Seq<Seq<char>>, b: Seq<Seq<char>>)
    ensures
        enum_variants(a + b) == enum_variants(a) + enum_variants(b),
    decreases a.len(),
{
    if a.len() == 0 {
        assert(a + b =~= b);
        assert(enum_variants(a) + enum_variants(b) =~= enum_variants(b));
    } else {
        assert((a + b)[0] == a[0]);
        assert((a + b).drop_first() =~= a.drop_first() + b);
        lemma_enum_variants_concat(a.drop_first(), b);
        let v = strip_quotes(trim_spec(a[0]));
        if v.len() == 0 {
        } else {
            assert(seq![v] + (enum_variants(a.drop_first()) + enum_variants(b)) =~= (seq![v]
                + enum_variants(a.drop_first())) + enum_variants(b));
        }
    }
}

/// What one more piece adds to the variants.
pub proof fn lemma_enum_variants_snoc(pieces: Seq<Seq<char>>, i: int)
    requires
        0 <= i < pieces.len(),
    ensures
        enum_variants(pieces.take(i + 1)) == enum_variants(pieces.take(i)) + (if strip_quotes(
            trim_spec(pieces[i]),
        ).len() == 0 {
            Seq::<Seq<char>>::empty()
        } else {
            seq![strip_quotes(trim_spec(pieces[i]))]
        }),
{
    assert(pieces.take(i + 1) =~= pieces.take(i) + seq![pieces[i]]);
    lemma_enum_variants_concat(pieces.take(i), seq![pieces[i]]);
    let single = seq![pieces[i]];
    assert(single[0] == pieces[i]);
    assert(single.drop_first() =~= Seq::<Seq<char>>::empty());
    assert(enum_variants(Seq::<Seq<char>>::empty()) =~= Seq::<Seq<char>>::empty());
    let v = strip_quotes(trim_spec(pieces[i]));
    if v.len() == 0 {
        assert(enum_variants(single) =~= Seq::<Seq<char>>::empty());
        assert(enum_variants(pieces.take(i)) + enum_variants(single) =~= enum_variants(
            pieces.take(i),
        ));
    } else {
        assert(enum_variants(single) =~= seq![v]);
    }
}

/// The recognized textual type expressions, after trimming: `string(N)`,
/// `[v1, v2, ...]`, and the bare keywords `string`, `bool`, `int`, `float`
/// (keywords ASCII-case-insensitive). Anything else is no match.
pub open spec fn spec_parse_type(s0: Seq<char>) -> Option<SchemaTypeView> {
    let s = trim_spec(s0);
    if is_bounded_string_form(s) {
        Some(SchemaTypeView::String(Some(dec_value(bounded_digits(s)))))
    } else if is_enum_form(s) {
        Some(
            SchemaTypeView::Enum(enum_variants(split_at_char(s.subrange(1, s.len() - 1), ','))),
        )
    } else if eq_ignore_ascii(s, "string"@) {
        Some(SchemaTypeView::String(None))
    } else if eq_ignore_ascii(s, "bool"@) {
        Some(SchemaTypeView::Bool)
    } else if eq_ignore_ascii(s, "int"@) {
        Some(SchemaTypeView::Int)
    } else if eq_ignore_ascii(s, "float"@) {
        Some(SchemaTypeView::Float)
    } else {
        None
    }
}

/// Removes all leading and trailing double quotes, as [`strip_quotes`] says.
fn strip_quotes_of<'a>(s: &'a str) -> (r: &'a str)
    ensures
        r@ == strip_quotes(s@),
    decreases s@.len(),
{
    let n = s.unicode_len();
    if n > 0 && s.get_char(0) == '"' {
        let t = s.substring_char(1, n);
        proof {
            assert(t@ =~= s@.drop_first());
        }
        strip_quotes_of(t)
    } else if n > 0 && s.get_char(n - 1) == '"' {
        let t = s.substring_char(0, n - 1);
        proof {
            assert(t@ =~= s@.drop_last());
        }
        strip_quotes_of(t)
    } else {
        s
    }
}

impl SchemaType {
    /// A copy whose view is the same.
    pub fn duplicate(&self) -> (r: SchemaType)
        ensures
            r@ == self@,
    {
        match self {
            SchemaType::String(m) => SchemaType::String(*m),
            SchemaType::Bool => SchemaType::Bool,
            SchemaType::Int => SchemaType::Int,
            SchemaType::Float => SchemaType::Float,
            SchemaType::Enum(vs) => {
                let n = vs.len();
                let mut out: Vec<String> = Vec::new();
                let mut i: usize = 0;
                while i < n
                    invariant
                        0 <= i <= n == vs@.len(),
                        out.deep_view() =~= vs.deep_view().take(i as int),
                    decreases n - i,
                {
                    let ghost before = out.deep_view();
                    let c = vs[i].clone();
                    proof {
                        assert(c@ == vs.deep_view()[i as int]);
                    }
                    out.push(c);
                    proof {
                        assert(out.deep_view() =~= before.push(vs.deep_view()[i as int]));
                        assert(out.deep_view() =~= vs.deep_view().take(i as int + 1));
                    }
                    i = i + 1;
                }
                proof {
                    assert(vs.deep_view().take(n as int) =~= vs.deep_view());
                }
                SchemaType::Enum(out)
            },
        }
    }

    /// Parses a textual type expression, exactly as [`spec_parse_type`] says:
    /// `Some` on the recognized forms, `None` on anything else.
    pub fn from_str(s: &str) -> (r: Option<SchemaType>)
        ensures
            match r {
                Some(t) => spec_parse_type(s@) == Some(t@),
                None => spec_parse_type(s@) is None,
            },
    {
        proof {
            reveal_strlit("string(");
            reveal_strlit("string");
            reveal_strlit("bool");
            reveal_strlit("int");
            reveal_strlit("float");
        }
        let t = trim_of(s);
        let n = t.unicode_len();
        // The `string(N)` form.
        if n > 8 && t.get_char(n - 1) == ')' {
            let head = t.substring_char(0, 7);
            proof {
                assert(head@ =~= t@.take(7));
            }
            if str_eq(head, "string(") {
                let digits = t.substring_char(7, n - 1);
                proof {
                    assert(digits@ =~= bounded_digits(t@));
                }
                let cap: u64 = usize::MAX as u64;
                match parse_decimal_capped(digits, cap) {
                    Some(v) => {
                        proof {
                            assert(is_bounded_string_form(t@));
                        }
                        let max: usize = v as usize;
                        return Some(SchemaType::String(Some(max)));
                    },
                    None => {
                        proof {
                            assert(!is_bounded_string_form(t@));
                            assert(!is_enum_form(t@)) by {
                                assert(t@.take(7)[0] == t@[0]);
                                assert(head@[0] == 's');
                            }
                            assert(!eq_ignore_ascii(t@, "string"@)) by {
                                assert("string"@.len() == 6);
                            }
                            assert(!eq_ignore_ascii(t@, "bool"@)) by {
                                assert("bool"@.len() == 4);
                            }
                            assert(!eq_ignore_ascii(t@, "int"@)) by {
                                assert("int"@.len() == 3);
                            }
                            assert(!eq_ignore_ascii(t@, "float"@)) by {
                                assert("float"@.len() == 5);
                            }
                        }
                        return None;
                    },
                }
            }
        }
        proof {
            assert(!is_bounded_string_form(t@));
        }
        // The `[v1, v2, ...]` form.
        if n >= 2 && t.get_char(0) == '[' && t.get_char(n - 1) == ']' {
            let inner = t.substring_char(1, n - 1);
            proof {
                assert(inner@ =~= t@.subrange(1, t@.len() - 1));
            }
            let pieces: Vec<String> = split_str(inner, ',');
            let np = pieces.len();
            let mut variants: Vec<String> = Vec::new();
            let mut i: usize = 0;
            while i < np
                invariant
                    0 <= i <= np == pieces@.len(),
                    variants.deep_view() == enum_variants(pieces.deep_view().take(i as int)),
                decreases np - i,
            {
                let piece = trim_of(pieces[i].as_str());
                let v = strip_quotes_of(piece);
                let ghost before = variants.deep_view();
                if v.unicode_len() > 0 {
                    variants.push(v.to_owned());
                    proof {
                        assert(variants.deep_view() =~= before + seq![v@]);
                    }
                }
                proof {
                    lemma_enum_variants_snoc(pieces.deep_view(), i as int);
                    if v@.len() == 0 {
                        assert(variants.deep_view() =~= enum_variants(
                            pieces.deep_view().take(i as int + 1),
                        ));
                    }
                }
                i = i + 1;
            }
            proof {
                assert(pieces.deep_view().take(np as int) =~= pieces.deep_view());
                assert(is_enum_form(t@));
            }
            return Some(SchemaType::Enum(variants));
        }
        proof {
            assert(!is_enum_form(t@)) by {
                if t@.len() >= 2 && t@[0] == '[' && t@.last() == ']' {
                    assert(false);
                }
            }
        }
        // Bare keywords, ASCII-case-insensitive.
        if str_eq_ignore_ascii_case(t, "string") {
            return Some(SchemaType::String(None));
        }
        if str_eq_ignore_ascii_case(t, "bool") {
            return Some(SchemaType::Bool);
        }
        if str_eq_ignore_ascii_case(t, "int") {
            return Some(SchemaType::Int);
        }
        if str_eq_ignore_ascii_case(t, "float") {
            return Some(SchemaType::Float);
        }
        None
    }
}

/// Extracts the bounded-string cap: `Some` exactly on the `string(N)` form.
fn bounded_form_of(t: &str) -> (r: Option<usize>)
    ensures
        match r {
            Some(m) => is_bounded_string_form(t@) && m as int == dec_value(bounded_digits(t@)),
            None => !is_bounded_string_form(t@),
        },
{
    proof {
        reveal_strlit("string(");
    }
    let n = t.unicode_len();
    if n > 8 && t.get_char(n - 1) == ')' {
        let head = t.substring_char(0, 7);
        proof {
            assert(head@ =~= t@.take(7));
        }
        if str_eq(head, "string(") {
            let digits = t.substring_char(7, n - 1);
            proof {
                assert(digits@ =~= bounded_digits(t@));
            }
            let cap: u64 = usize::MAX as u64;
            match parse_decimal_capped(digits, cap) {
                Some(v) => {
                    return Some(v as usize);
                },
                None => {
                    return None;
                },
            }
        }
    }
    None
}

/// A raw schema value carries parenthesized metadata when it is not the
/// `string(N)` form and contains a `(`.
pub open spec fn has_meta(v: Seq<char>) -> bool {
    !is_bounded_string_form(trim_spec(v)) && first_at(v, '(') < v.len()
}

/// The type expression of a raw schema value: what precedes the metadata,
/// trimmed.
pub open spec fn type_text(v: Seq<char>) -> Seq<char> {
    if has_meta(v) {
        trim_spec(v.take(first_at(v, '(')))
    } else {
        trim_spec(v)
    }
}

/// The metadata text: between the first `(` and the value's last character
/// (the closing parenthesis is not checked, only dropped).
pub open spec fn meta_text(v: Seq<char>) -> Seq<char> {
    let i = first_at(v, '(');
    if v.len() - 1 >= i + 1 {
        v.subrange(i + 1, v.len() - 1)
    } else {
        Seq::empty()
    }
}

/// What a metadata token sets as default: the trimmed right-hand side of
/// `default=...`, if the token has that shape.
pub open spec fn token_default(raw: Seq<char>) -> Option<Seq<char>> {
    let t = trim_spec(raw);
    let i = first_at(t, '=');
    if i < t.len() && trim_spec(t.take(i)) == "default"@ {
        Some(trim_spec(t.skip(i + 1)))
    } else {
        None
    }
}

/// The default the token list sets: the last `default=...` token wins.
pub open spec fn meta_default(tokens: Seq<Seq<char>>) -> Option<Seq<char>>
    decreases tokens.len(),
{
    if tokens.len() == 0 {
        None
    } else {
        match token_default(tokens.last()) {
            Some(d) => Some(d),
            None => meta_default(tokens.drop_last()),
        }
    }
}

/// Whether some metadata token is the word `required`, case-insensitively.
pub open spec fn meta_required(tokens: Seq<Seq<char>>) -> bool {
    exists|i: int|
        0 <= i < tokens.len() && eq_ignore_ascii(trim_spec(#[trigger] tokens[i]), "required"@)
}

/// What one schema line's raw value means: a schema entry, or the content of
/// the error it raises. Unrecognized type expressions fail, and so does the
/// contradiction of a required field carrying a default (a required field
/// could never be auto-filled).
pub open spec fn spec_schema_entry(key: Seq<char>, v: Seq<char>) -> Result<SchemaEntryView, Seq<
    char,
>> {
    let tt = type_text(v);
    let tokens = split_at_char(meta_text(v), ',');
    let req = has_meta(v) && meta_required(tokens);
    let def = if has_meta(v) {
        meta_default(tokens)
    } else {
        None
    };
    match spec_parse_type(tt) {
        None => Err("unknown schema type: "@ + tt),
        Some(t) => {
            if req && def is Some {
                Err("required field has a default: "@ + key)
            } else {
                Ok(SchemaEntryView { typ: t, required: req, default: def })
            }
        },
    }
}

/// Parses one schema line's raw value into an entry, as
/// [`spec_schema_entry`] says; errors come out as invalid-line failures with
/// line number 0, since line positions are not tracked at this level.
fn parse_schema_entry(key: &String, raw: &String) -> (r: Result<SchemaEntry, ParseError>)
    ensures
        match r {
            Ok(en) => spec_schema_entry(key@, raw@) == Ok::<SchemaEntryView, Seq<char>>(en@),
            Err(pe) => {
                &&& spec_schema_entry(key@, raw@) is Err
                &&& pe@ == (ParseErrorView::InvalidLine {
                    line_number: 0,
                    content: spec_schema_entry(key@, raw@)->Err_0,
                })
            },
        },
{
    let t_all = trim_of(raw.as_str());
    let rn = raw.as_str().unicode_len();
    let i = find_char(raw.as_str(), '(');
    let is_bounded = match bounded_form_of(t_all) {
        Some(_) => true,
        None => false,
    };
    let mut required = false;
    let mut default: Option<String> = None;
    let type_str: &str = if !is_bounded && i < rn {
        let before = raw.as_str().substring_char(0, i);
        proof {
            assert(before@ =~= raw@.take(i as int));
        }
        let hi: usize = if rn - 1 >= i + 1 {
            rn - 1
        } else {
            i + 1
        };
        let meta = raw.as_str().substring_char(i + 1, hi);
        proof {
            if rn - 1 >= i + 1 {
                assert(meta@ =~= raw@.subrange(i as int + 1, raw@.len() - 1));
            } else {
                assert(meta@ =~= Seq::<char>::empty());
                assert(meta@ =~= meta_text(raw@));
            }
            assert(meta@ == meta_text(raw@));
        }
        let tokens: Vec<String> = split_str(meta, ',');
        let ghost tv = tokens.deep_view();
        let nt = tokens.len();
        let mut j: usize = 0;
        while j < nt
            invariant
                0 <= j <= nt == tokens@.len(),
                tv == tokens.deep_view(),
                required == meta_required(tv.take(j as int)),
                (match default {
                    Some(d) => meta_default(tv.take(j as int)) == Some(d@),
                    None => meta_default(tv.take(j as int)) is None,
                }),
            decreases nt - j,
        {
            let tok = trim_of(tokens[j].as_str());
            let ghost tcur = tv.take(j as int + 1);
            proof {
                assert(tcur.drop_last() =~= tv.take(j as int));
                assert(tcur.last() == tv[j as int]);
                assert(tok@ == trim_spec(tv[j as int]));
            }
            if str_eq_ignore_ascii_case(tok, "required") {
                required = true;
                proof {
                    assert(meta_required(tcur)) by {
                        assert(eq_ignore_ascii(trim_spec(tcur[j as int]), "required"@));
                    }
                    assert(token_default(tv[j as int]) is None) by {
                        let t1 = trim_spec(tv[j as int]);
                        crate::text::lemma_first_at(t1, '=');
                        let e = first_at(t1, '=');
                        if e < t1.len() && trim_spec(t1.take(e)) == "default"@ {
                            reveal_strlit("required");
                            assert(eq_ignore_ascii(t1, "required"@));
                            assert(t1.len() == 8);
                            assert forall|l: int| 0 <= l < 8 implies t1[l] != '=' by {
                                assert(crate::text::char_eq_ic(t1[l], "required"@[l]));
                            }
                            assert(e == 8);
                        }
                    }
                }
            } else {
                let tn = tok.unicode_len();
                let e = find_char(tok, '=');
                proof {
                    lemma_first_at(tok@, '=');
                }
                if e < tn {
                    let lhs = trim_of(tok.substring_char(0, e));
                    proof {
                        assert(tok@.subrange(0, e as int) =~= tok@.take(e as int));
                    }
                    if str_eq(lhs, "default") {
                        let rhs = trim_of(tok.substring_char(e + 1, tn));
                        proof {
                            assert(tok@.subrange(e as int + 1, tn as int) =~= tok@.skip(
                                e as int + 1,
                            ));
                            assert(token_default(tv[j as int]) == Some(rhs@));
                        }
                        default = Some(rhs.to_owned());
                    } else {
                        proof {
                            assert(token_default(tv[j as int]) is None);
                            assert(!eq_ignore_ascii(trim_spec(tcur[j as int]), "required"@));
                        }
                    }
                } else {
                    proof {
                        assert(token_default(tv[j as int]) is None);
                        assert(!eq_ignore_ascii(trim_spec(tcur[j as int]), "required"@));
                    }
                }
                proof {
                    if !meta_required(tv.take(j as int)) {
                        assert(!meta_required(tcur)) by {
                            if meta_required(tcur) {
                                let l = choose|l: int|
                                    0 <= l < tcur.len() && eq_ignore_ascii(
                                        trim_spec(#[trigger] tcur[l]),
                                        "required"@,
                                    );
                                if l < j {
                                    assert(tv.take(j as int)[l] == tcur[l]);
                                }
                            }
                        }
                    } else {
                        assert(meta_required(tcur)) by {
                            let l = choose|l: int|
                                0 <= l < j && eq_ignore_ascii(
                                    trim_spec(#[trigger] tv.take(j as int)[l]),
                                    "required"@,
                                );
                            assert(eq_ignore_ascii(trim_spec(tcur[l]), "required"@));
                        }
                    }
                }
            }
            j = j + 1;
        }
        proof {
            assert(tv.take(nt as int) =~= tv);
            assert(has_meta(raw@));
            assert(type_text(raw@) == trim_spec(raw@.take(first_at(raw@, '('))));
        }
        trim_of(before)
    } else {
        proof {
            crate::text::lemma_first_at(raw@, '(');
            assert(!has_meta(raw@));
        }
        t_all
    };
    proof {
        assert(type_str@ == type_text(raw@));
    }
    match SchemaType::from_str(type_str) {
        None => {
            let mut content = "unknown schema type: ".to_owned();
            content.append(type_str);
            proof {
                assert(spec_parse_type(type_text(raw@)) is None);
            }
            Err(ParseError::InvalidLine { line_number: 0, content })
        },
        Some(t) => {
            let has_default = match &default {
                Some(_) => true,
                None => false,
            };
            if required && has_default {
                let mut content = "required field has a default: ".to_owned();
                content.append(key.as_str());
                Err(ParseError::InvalidLine { line_number: 0, content })
            } else {
                proof {
                    assert(spec_parse_type(type_text(raw@)) == Some(t@));
                }
                Ok(SchemaEntry { typ: t, required, default })
            }
        },
    }
}

/// Parses schema-definition text: the same flat `key=value` syntax as
/// configuration text, each value a type expression optionally followed by
/// parenthesized metadata. Fails with the text's first structural error, or
/// with the entry error of the first (in key order) value that does not parse,
/// as an invalid line numbered 0; succeeds exactly when the text parses and
/// every entry does.
pub fn parse_schema_str(input: &str) -> (r: Result<SchemaMap, ParseError>)
    ensures
        ({
            match spec_parse(input@, MAX_VALUE_LEN as int) {
                Err(e) => r matches Err(pe) && pe@ == e,
                Ok(m) => match r {
                    Ok(sm) => {
                        &&& sm.wf()
                        &&& sm@.dom() == m.dom()
                        &&& forall|k: Seq<char>| #[trigger]
                            m.contains_key(k) ==> spec_schema_entry(k, m[k]) == Ok::<
                                SchemaEntryView,
                                Seq<char>,
                            >(sm@[k])
                    },
                    Err(pe) => exists|k: Seq<char>|
                        {
                            &&& #[trigger] m.contains_key(k)
                            &&& spec_schema_entry(k, m[k]) is Err
                            &&& pe@ == (ParseErrorView::InvalidLine {
                                line_number: 0,
                                content: spec_schema_entry(k, m[k])->Err_0,
                            })
                            &&& forall|k2: Seq<char>|
                                #[trigger] m.contains_key(k2) && lex_lt(k2, k)
                                    ==> spec_schema_entry(k2, m[k2]) is Ok
                        },
                },
            }
        }),
{
    let raw = match parse_str(input) {
        Ok(cm) => cm,
        Err(e) => {
            return Err(e);
        },
    };
    let ghost m = spec_parse(input@, MAX_VALUE_LEN as int)->Ok_0;
    let ghost kv = raw.kv_seq();
    proof {
        raw.lemma_view_is_kv();
    }
    let total = raw.len();
    let mut sm: SchemaMap = StrMap::new();
    let mut i: usize = 0;
    while i < total
        invariant
            0 <= i <= total == kv.len(),
            raw.wf(),
            raw@ == m,
            spec_parse(input@, MAX_VALUE_LEN as int) == Ok::<
                Map<Seq<char>, Seq<char>>,
                ParseErrorView,
            >(m),
            kv == raw.kv_seq(),
            crate::strmap::distinct_keys(kv),
            crate::strmap::sorted_keys(kv),
            sm.wf(),
            forall|k: Seq<char>|
                #[trigger] sm@.contains_key(k) <==> exists|j: int| 0 <= j < i && kv[j].0 == k,
            forall|j: int|
                0 <= j < i ==> spec_schema_entry(#[trigger] kv[j].0, kv[j].1) == Ok::<
                    SchemaEntryView,
                    Seq<char>,
                >(sm@[kv[j].0]),
        decreases total - i,
    {
        let key: &String = raw.key_at(i);
        let value: &String = raw.value_at(i);
        proof {
            raw.lemma_kv_in_view(i as int);
        }
        match parse_schema_entry(key, value) {
            Ok(entry) => {
                let ghost before = sm@;
                sm.insert(key.clone(), entry);
                proof {
                    assert forall|k: Seq<char>| #[trigger]
                        sm@.contains_key(k) <==> exists|j: int|
                        0 <= j < i + 1 && kv[j].0 == k by {
                        if sm@.contains_key(k) {
                            if k == kv[i as int].0 {
                                assert(kv[i as int].0 == k);
                            } else {
                                assert(before.contains_key(k));
                                let j = choose|j: int| 0 <= j < i && kv[j].0 == k;
                                assert(0 <= j < i + 1 && kv[j].0 == k);
                            }
                        } else {
                            if exists|j: int| 0 <= j < i + 1 && kv[j].0 == k {
                                let j = choose|j: int| 0 <= j < i + 1 && kv[j].0 == k;
                                if j < i {
                                    assert(before.contains_key(k));
                                }
                                assert(false);
                            }
                        }
                    }
                    assert forall|j: int| 0 <= j < i + 1 implies spec_schema_entry(
                        #[trigger] kv[j].0,
                        kv[j].1,
                    ) == Ok::<SchemaEntryView, Seq<char>>(sm@[kv[j].0]) by {
                        if j < i {
                            assert(kv[j].0 != kv[i as int].0);
                            assert(sm@[kv[j].0] == before[kv[j].0]);
                        }
                    }
                }
            },
            Err(pe) => {
                proof {
                    let kbad = kv[i as int].0;
                    assert(m.contains_key(kbad) && m[kbad] == kv[i as int].1);
                    assert forall|k2: Seq<char>|
                        #[trigger] m.contains_key(k2) && lex_lt(k2, kbad) implies spec_schema_entry(
                        k2,
                        m[k2],
                    ) is Ok by {
                        raw.lemma_view_in_kv(k2);
                        let j = choose|j: int|
                            0 <= j < kv.len() && kv[j].0 == k2 && kv[j].1 == m[k2];
                        if j > i {
                            assert(lex_lt(kbad, k2));
                            lemma_lex_lt_trans(k2, kbad, k2);
                            lemma_lex_lt_irrefl(k2);
                        } else if j == i {
                            lemma_lex_lt_irrefl(k2);
                        }
                        assert(j < i);
                    }
                    assert(exists|k: Seq<char>|
                        {
                            &&& #[trigger] m.contains_key(k)
                            &&& spec_schema_entry(k, m[k]) is Err
                            &&& pe@ == (ParseErrorView::InvalidLine {
                                line_number: 0,
                                content: spec_schema_entry(k, m[k])->Err_0,
                            })
                            &&& forall|k2: Seq<char>|
                                #[trigger] m.contains_key(k2) && lex_lt(k2, k)
                                    ==> spec_schema_entry(k2, m[k2]) is Ok
                        }) by {
                        assert({
                            &&& m.contains_key(kbad)
                            &&& spec_schema_entry(kbad, m[kbad]) is Err
                            &&& pe@ == (ParseErrorView::InvalidLine {
                                line_number: 0,
                                content: spec_schema_entry(kbad, m[kbad])->Err_0,
                            })
                            &&& forall|k2: Seq<char>|
                                #[trigger] m.contains_key(k2) && lex_lt(k2, kbad)
                                    ==> spec_schema_entry(k2, m[k2]) is Ok
                        });
                    }
                }
                return Err(pe);
            },
        }
        i = i + 1;
    }
    proof {
        assert forall|k: Seq<char>| #[trigger] m.contains_key(k) implies spec_schema_entry(
            k,
            m[k],
        ) == Ok::<SchemaEntryView, Seq<char>>(sm@[k]) by {
            raw.lemma_view_in_kv(k);
            let j = choose|j: int| 0 <= j < kv.len() && kv[j].0 == k && kv[j].1 == m[k];
            assert(spec_schema_entry(kv[j].0, kv[j].1) == Ok::<SchemaEntryView, Seq<char>>(
                sm@[kv[j].0],
            ));
        }
        assert forall|k: Seq<char>| #[trigger] sm@.contains_key(k) implies m.contains_key(k) by {
            let j = choose|j: int| 0 <= j < total && kv[j].0 == k;
            raw.lemma_kv_in_view(j);
        }
        assert forall|k: Seq<char>| #[trigger] m.contains_key(k) implies sm@.contains_key(k) by {
            raw.lemma_view_in_kv(k);
        }
        assert(sm@.dom() =~= m.dom());
    }
    Ok(sm)
}

/// An enumeration type accepts exactly its literal values — membership is
/// verbatim and case-sensitive — and rejects every other text.
pub proof fn lemma_enum_accepts_exactly(vs: Seq<Seq<char>>, s: Seq<char>)
    ensures
        type_accepts(SchemaTypeView::Enum(vs), s) <==> exists|i: int|
            0 <= i < vs.len() && vs[i] == s,
{
}

/// Decides whether text is a base-10 signed 64-bit integer literal.
fn check_int(text: &str) -> (r: bool)
    ensures
        r == is_int_text(text@),
{
    let n = text.unicode_len();
    if n == 0 {
        return false;
    }
    let c0 = text.get_char(0);
    let neg = c0 == '-';
    let start: usize = if c0 == '-' || c0 == '+' {
        1
    } else {
        0
    };
    let digits = text.substring_char(start, n);
    proof {
        if start == 1 {
            assert(digits@ =~= text@.drop_first());
        } else {
            assert(digits@ =~= text@);
        }
        assert(digits@ == strip_sign(text@));
    }
    let cap: u64 = if neg {
        0x8000_0000_0000_0000
    } else {
        0x7fff_ffff_ffff_ffff
    };
    match parse_decimal_capped(digits, cap) {
        Some(_) => true,
        None => false,
    }
}

/// Decides whether text is a nonempty run of digits.
fn check_all_digits(s: &str) -> (r: bool)
    ensures
        r == (s@.len() > 0 && all_digits(s@)),
{
    let n = s.unicode_len();
    if n == 0 {
        return false;
    }
    let mut i: usize = 0;
    while i < n
        invariant
            0 <= i <= n == s@.len(),
            forall|j: int| 0 <= j < i ==> is_digit(s@[j]),
        decreases n - i,
    {
        let c = s.get_char(i) as u32;
        if !(0x30 <= c && c <= 0x39) {
            assert(!is_digit(s@[i as int]));
            return false;
        }
        i = i + 1;
    }
    true
}

/// Decides [`is_mantissa`].
fn check_mantissa(s: &str) -> (r: bool)
    ensures
        r == is_mantissa(s@),
{
    let n = s.unicode_len();
    if n == 0 {
        return false;
    }
    let mut i: usize = 0;
    let mut seen_digit = false;
    let mut seen_dot = false;
    let ghost mut dot_at: int = 0;
    while i < n
        invariant
            0 <= i <= n == s@.len(),
            forall|j: int| 0 <= j < i ==> (is_digit(s@[j]) || s@[j] == '.'),
            seen_digit == exists|j: int| 0 <= j < i && is_digit(s@[j]),
            seen_dot ==> 0 <= dot_at < i && s@[dot_at] == '.',
            forall|j: int| 0 <= j < i && s@[j] == '.' ==> seen_dot && j == dot_at,
        decreases n - i,
    {
        let c = s.get_char(i);
        let u = c as u32;
        if 0x30 <= u && u <= 0x39 {
            seen_digit = true;
        } else if c == '.' {
            if seen_dot {
                assert(s@[dot_at] == '.' && s@[i as int] == '.' && dot_at < i);
                return false;
            }
            seen_dot = true;
            proof {
                dot_at = i as int;
            }
        } else {
            assert(!is_digit(s@[i as int]) && s@[i as int] != '.');
            return false;
        }
        i = i + 1;
    }
    if seen_digit {
        proof {
            assert forall|a: int, b: int| 0 <= a < b < s@.len() implies !(s@[a] == '.' && s@[b]
                == '.') by {
                if s@[a] == '.' && s@[b] == '.' {
                    assert(a == dot_at && b == dot_at);
                }
            }
        }
        true
    } else {
        false
    }
}

/// Decides [`is_float_text`].
fn check_float(text: &str) -> (r: bool)
    ensures
        r == is_float_text(text@),
{
    let n = text.unicode_len();
    let start: usize = if n > 0 && (text.get_char(0) == '+' || text.get_char(0) == '-') {
        1
    } else {
        0
    };
    let body = text.substring_char(start, n);
    proof {
        if start == 1 {
            assert(body@ =~= text@.drop_first());
        } else {
            assert(body@ =~= text@);
        }
        assert(body@ == strip_sign(text@));
    }
    let bn = body.unicode_len();
    let mut e: usize = 0;
    while e < bn && body.get_char(e) != 'e' && body.get_char(e) != 'E'
        invariant
            0 <= e <= bn == body@.len(),
            forall|j: int| 0 <= j < e ==> body@[j] != 'e' && body@[j] != 'E',
        decreases bn - e,
    {
        e = e + 1;
    }
    proof {
        lemma_first_exp_at_is(body@, e as int);
    }
    if e == bn {
        check_mantissa(body)
    } else {
        let mant = body.substring_char(0, e);
        proof {
            assert(mant@ =~= body@.take(e as int));
        }
        if !check_mantissa(mant) {
            return false;
        }
        let exp_all = body.substring_char(e + 1, bn);
        proof {
            assert(exp_all@ =~= body@.skip(e as int + 1));
        }
        let en = exp_all.unicode_len();
        let estart: usize = if en > 0 && (exp_all.get_char(0) == '+' || exp_all.get_char(0)
            == '-') {
            1
        } else {
            0
        };
        let edigits = exp_all.substring_char(estart, en);
        proof {
            if estart == 1 {
                assert(edigits@ =~= exp_all@.drop_first());
            } else {
                assert(edigits@ =~= exp_all@);
            }
            assert(edigits@ == strip_sign(exp_all@));
        }
        check_all_digits(edigits)
    }
}

/// Decides whether a value's text satisfies a type descriptor, as
/// [`type_accepts`] states.
pub fn validate_value(t: &SchemaType, text: &str) -> (r: bool)
    ensures
        r == type_accepts(t@, text@),
{
    match t {
        SchemaType::String(m) => match m {
            None => true,
            Some(max) => text.unicode_len() <= *max,
        },
        SchemaType::Bool => str_eq_ignore_ascii_case(text, "true") || str_eq_ignore_ascii_case(
            text,
            "false",
        ),
        SchemaType::Int => check_int(text),
        SchemaType::Float => check_float(text),
        SchemaType::Enum(vs) => {
            let n = vs.len();
            let mut i: usize = 0;
            while i < n
                invariant
                    0 <= i <= n == vs@.len(),
                    t@ == SchemaTypeView::Enum(vs.deep_view()),
                    forall|j: int| 0 <= j < i ==> vs@[j]@ != text@,
                decreases n - i,
            {
                if str_eq(vs[i].as_str(), text) {
                    proof {
                        assert(type_accepts(t@, text@) == vs.deep_view().contains(text@));
                        assert(vs.deep_view()[i as int] == text@);
                        assert(vs.deep_view().contains(text@)) by {
                            assert(exists|j: int|
                                0 <= j < vs.deep_view().len() && vs.deep_view()[j] == text@) by {
                                assert(vs.deep_view()[i as int] == text@);
                            }
                        }
                    }
                    return true;
                }
                i = i + 1;
            }
            proof {
                if vs.deep_view().contains(text@) {
                    let j = choose|j: int|
                        0 <= j < vs.deep_view().len() && vs.deep_view()[j] == text@;
                    assert(vs@[j]@ == text@);
                }
            }
            false
        },
    }
}

/// One field violation found while validating a configuration: the offending
/// key, the offending raw value when one was present, and the reason.
#[derive(Debug)]
pub enum ValidationError {
    /// The key's value does not satisfy the schema's type for it.
    TypeMismatch { key: String, value: String, expected: SchemaType },
    /// A required key is absent from the configuration.
    MissingRequired { key: String },
}

/// Mathematical mirror of [`ValidationError`].
pub enum ValidationErrorView {
    TypeMismatch { key: Seq<char>, value: Seq<char>, expected: SchemaTypeView },
    MissingRequired { key: Seq<char> },
}

impl View for ValidationError {
    type V = ValidationErrorView;

    open spec fn view(&self) -> ValidationErrorView {
        match self {
            ValidationError::TypeMismatch { key, value, expected } => {
                ValidationErrorView::TypeMismatch {
                    key: key@,
                    value: value@,
                    expected: expected@,
                }
            },
            ValidationError::MissingRequired { key } => ValidationErrorView::MissingRequired {
                key: key@,
            },
        }
    }
}

impl DeepView for ValidationError {
    type V = ValidationErrorView;

    open spec fn deep_view(&self) -> ValidationErrorView {
        self.view()
    }
}

/// The keyword naming a type in violation messages.
pub open spec fn type_keyword(t: SchemaTypeView) -> Seq<char> {
    match t {
        SchemaTypeView::String(_) => "string"@,
        SchemaTypeView::Bool => "bool"@,
        SchemaTypeView::Int => "int"@,
        SchemaTypeView::Float => "float"@,
        SchemaTypeView::Enum(_) => "enum"@,
    }
}

/// The rendered text of a violation, naming the key and the failure.
pub open spec fn spec_message(e: ValidationErrorView) -> Seq<char> {
    match e {
        ValidationErrorView::TypeMismatch { key, value, expected } => key + ": '"@ + value
            + "' is not a valid "@ + type_keyword(expected),
        ValidationErrorView::MissingRequired { key } => key + ": required field is missing"@,
    }
}

impl ValidationError {
    /// Renders the violation as human-readable text.
    pub fn message(&self) -> (s: String)
        ensures
            s@ == spec_message(self@),
    {
        match self {
            ValidationError::TypeMismatch { key, value, expected } => {
                let mut s = String::new();
                s.append(key.as_str());
                s.append(": '");
                s.append(value.as_str());
                s.append("' is not a valid ");
                let kw: &str = match expected {
                    SchemaType::String(_) => "string",
                    SchemaType::Bool => "bool",
                    SchemaType::Int => "int",
                    SchemaType::Float => "float",
                    SchemaType::Enum(_) => "enum",
                };
                s.append(kw);
                proof {
                    assert(s@ =~= spec_message(self@));
                }
                s
            },
            ValidationError::MissingRequired { key } => {
                let mut s = String::new();
                s.append(key.as_str());
                s.append(": required field is missing");
                proof {
                    assert(s@ =~= spec_message(self@));
                }
                s
            },
        }
    }
}

/// What one schema entry contributes to the violation list.
pub open spec fn entry_violation(
    c: Map<Seq<char>, Seq<char>>,
    k: Seq<char>,
    en: SchemaEntryView,
) -> Seq<ValidationErrorView> {
    if c.contains_key(k) {
        if type_accepts(en.typ, c[k]) {
            Seq::empty()
        } else {
            seq![ValidationErrorView::TypeMismatch { key: k, value: c[k], expected: en.typ }]
        }
    } else if en.required {
        seq![ValidationErrorView::MissingRequired { key: k }]
    } else {
        Seq::empty()
    }
}

/// All violations of a configuration against schema entries, in entry order;
/// nothing short-circuits.
pub open spec fn spec_violations(
    c: Map<Seq<char>, Seq<char>>,
    entries: Seq<(Seq<char>, SchemaEntryView)>,
) -> Seq<ValidationErrorView>
    decreases entries.len(),
{
    if entries.len() == 0 {
        Seq::empty()
    } else {
        entry_violation(c, entries[0].0, entries[0].1) + spec_violations(c, entries.drop_first())
    }
}

proof fn lemma_spec_violations_concat(
    c: Map<Seq<char>, Seq<char>>,
    a: Seq<(Seq<char>, SchemaEntryView)>,
    b: Seq<(Seq<char>, SchemaEntryView)>,
)
    ensures
        spec_violations(c, a + b) == spec_violations(c, a) + spec_violations(c, b),
    decreases a.len(),
{
    if a.len() == 0 {
        assert(a + b =~= b);
        assert(spec_violations(c, a) + spec_violations(c, b) =~= spec_violations(c, b));
    } else {
        assert((a + b)[0] == a[0]);
        assert((a + b).drop_first() =~= a.drop_first() + b);
        lemma_spec_violations_concat(c, a.drop_first(), b);
        assert(entry_violation(c, a[0].0, a[0].1) + (spec_violations(c, a.drop_first())
            + spec_violations(c, b)) =~= (entry_violation(c, a[0].0, a[0].1) + spec_violations(
            c,
            a.drop_first(),
        )) + spec_violations(c, b));
    }
}

/// What one more schema entry adds to the violations.
proof fn lemma_spec_violations_snoc(
    c: Map<Seq<char>, Seq<char>>,
    s: Seq<(Seq<char>, SchemaEntryView)>,
    i: int,
)
    requires
        0 <= i < s.len(),
    ensures
        spec_violations(c, s.take(i + 1)) == spec_violations(c, s.take(i)) + entry_violation(
            c,
            s[i].0,
            s[i].1,
        ),
{
    assert(s.take(i + 1) =~= s.take(i) + seq![s[i]]);
    lemma_spec_violations_concat(c, s.take(i), seq![s[i]]);
    let single = seq![s[i]];
    assert(single[0] == s[i]);
    assert(single.drop_first() =~= Seq::<(Seq<char>, SchemaEntryView)>::empty());
    assert(spec_violations(c, single.drop_first()) =~= Seq::<ValidationErrorView>::empty());
    assert(spec_violations(c, single) =~= entry_violation(c, s[i].0, s[i].1));
}

/// What one schema entry does to the configuration: inserts its default when
/// the key is absent, not required, and a default exists.
pub open spec fn entry_default(
    c: Map<Seq<char>, Seq<char>>,
    k: Seq<char>,
    en: SchemaEntryView,
) -> Map<Seq<char>, Seq<char>> {
    if !c.contains_key(k) && !en.required && en.default is Some {
        c.insert(k, en.default->0)
    } else {
        c
    }
}

/// The configuration after defaults for all entries, applied in entry order.
pub open spec fn spec_with_defaults(
    c: Map<Seq<char>, Seq<char>>,
    entries: Seq<(Seq<char>, SchemaEntryView)>,
) -> Map<Seq<char>, Seq<char>>
    decreases entries.len(),
{
    if entries.len() == 0 {
        c
    } else {
        spec_with_defaults(entry_default(c, entries[0].0, entries[0].1), entries.drop_first())
    }
}

proof fn lemma_with_defaults_snoc(
    c: Map<Seq<char>, Seq<char>>,
    s: Seq<(Seq<char>, SchemaEntryView)>,
    p: (Seq<char>, SchemaEntryView),
)
    ensures
        spec_with_defaults(c, s.push(p)) == entry_default(spec_with_defaults(c, s), p.0, p.1),
    decreases s.len(),
{
    if s.len() == 0 {
        assert(s.push(p)[0] == p);
        assert(s.push(p).drop_first() =~= Seq::<(Seq<char>, SchemaEntryView)>::empty());
        assert(spec_with_defaults(
            entry_default(c, p.0, p.1),
            Seq::<(Seq<char>, SchemaEntryView)>::empty(),
        ) == entry_default(c, p.0, p.1));
    } else {
        assert(s.push(p)[0] == s[0]);
        assert(s.push(p).drop_first() =~= s.drop_first().push(p));
        lemma_with_defaults_snoc(entry_default(c, s[0].0, s[0].1), s.drop_first(), p);
    }
}

/// Keys that no entry names are untouched by default insertion.
proof fn lemma_with_defaults_frame(
    c: Map<Seq<char>, Seq<char>>,
    s: Seq<(Seq<char>, SchemaEntryView)>,
    k: Seq<char>,
)
    requires
        forall|j: int| 0 <= j < s.len() ==> (#[trigger] s[j].0) != k,
    ensures
        spec_with_defaults(c, s).contains_key(k) == c.contains_key(k),
        c.contains_key(k) ==> spec_with_defaults(c, s)[k] == c[k],
    decreases s.len(),
{
    if s.len() > 0 {
        let c1 = entry_default(c, s[0].0, s[0].1);
        assert(c1.contains_key(k) == c.contains_key(k));
        assert forall|j: int| 0 <= j < s.drop_first().len() implies (#[trigger] s.drop_first()[j].0)
            != k by {
            assert(s.drop_first()[j] == s[j + 1]);
        }
        lemma_with_defaults_frame(c1, s.drop_first(), k);
    }
}

/// Validates a configuration against a schema, visiting every schema entry in
/// key order and aggregating all violations (a type mismatch for a present
/// key whose value fails its type, a missing-required for an absent required
/// key). Defaults for absent optional keys are inserted into the
/// configuration whether or not violations were found; keys absent from the
/// schema are ignored. Succeeds exactly when no entry raises a violation.
pub fn validate_with_schema(config: &mut ConfigMap, schema: &SchemaMap) -> (r: Result<
    (),
    Vec<ValidationError>,
>)
    requires
        old(config).wf(),
        schema.wf(),
    ensures
        final(config).wf(),
        final(config)@ == spec_with_defaults(old(config)@, schema.kv_seq()),
        match r {
            Ok(()) => spec_violations(old(config)@, schema.kv_seq()).len() == 0,
            Err(errs) => {
                &&& errs.deep_view() == spec_violations(old(config)@, schema.kv_seq())
                &&& errs@.len() > 0
            },
        },
{
    let ghost c0 = old(config)@;
    let ghost skv = schema.kv_seq();
    proof {
        schema.lemma_view_is_kv();
        assert(skv.take(0) =~= Seq::<(Seq<char>, SchemaEntryView)>::empty());
    }
    let mut errors: Vec<ValidationError> = Vec::new();
    let total = schema.len();
    let mut i: usize = 0;
    while i < total
        invariant
            0 <= i <= total == skv.len(),
            schema.wf(),
            skv == schema.kv_seq(),
            crate::strmap::distinct_keys(skv),
            config.wf(),
            config@ == spec_with_defaults(c0, skv.take(i as int)),
            errors.deep_view() == spec_violations(c0, skv.take(i as int)),
        decreases total - i,
    {
        let key: &String = schema.key_at(i);
        let entry: &SchemaEntry = schema.value_at(i);
        let ghost en = skv[i as int].1;
        proof {
            assert(key@ == skv[i as int].0);
            assert(entry@ == en);
            assert forall|j: int| 0 <= j < skv.take(i as int).len() implies (#[trigger] skv.take(
                i as int,
            )[j].0) != key@ by {
                assert(skv.take(i as int)[j] == skv[j]);
            }
            lemma_with_defaults_frame(c0, skv.take(i as int), key@);
            lemma_with_defaults_snoc(c0, skv.take(i as int), skv[i as int]);
            assert(skv.take(i as int).push(skv[i as int]) =~= skv.take(i as int + 1));
            lemma_spec_violations_snoc(c0, skv, i as int);
        }
        let ghost before_errs = errors.deep_view();
        let ghost cfg_before = config@;
        match config.get(key.as_str()) {
            Some(v) => {
                proof {
                    assert(c0.contains_key(key@) && c0[key@] == v@);
                }
                if !validate_value(&entry.typ, v.as_str()) {
                    let ev = ValidationError::TypeMismatch {
                        key: key.clone(),
                        value: v.clone(),
                        expected: entry.typ.duplicate(),
                    };
                    proof {
                        assert(ev@ == (ValidationErrorView::TypeMismatch {
                            key: key@,
                            value: c0[key@],
                            expected: en.typ,
                        }));
                    }
                    errors.push(ev);
                    proof {
                        assert(errors.deep_view() =~= before_errs + entry_violation(
                            c0,
                            key@,
                            en,
                        ));
                    }
                } else {
                    proof {
                        assert(entry_violation(c0, key@, en) =~= Seq::<
                            ValidationErrorView,
                        >::empty());
                        assert(errors.deep_view() =~= before_errs + entry_violation(
                            c0,
                            key@,
                            en,
                        ));
                    }
                }
                proof {
                    assert(entry_default(cfg_before, key@, en) == cfg_before);
                }
            },
            None => {
                proof {
                    assert(!c0.contains_key(key@));
                }
                if entry.required {
                    let ev = ValidationError::MissingRequired { key: key.clone() };
                    errors.push(ev);
                    proof {
                        assert(errors.deep_view() =~= before_errs + entry_violation(
                            c0,
                            key@,
                            en,
                        ));
                        assert(entry_default(cfg_before, key@, en) == cfg_before);
                    }
                } else {
                    match &entry.default {
                        Some(d) => {
                            config.insert(key.clone(), d.clone());
                            proof {
                                assert(en.default == Some(d@));
                                assert(config@ == entry_default(cfg_before, key@, en));
                            }
                        },
                        None => {
                            proof {
                                assert(en.default is None);
                                assert(entry_default(cfg_before, key@, en) == cfg_before);
                            }
                        },
                    }
                    proof {
                        assert(entry_violation(c0, key@, en) =~= Seq::<
                            ValidationErrorView,
                        >::empty());
                        assert(errors.deep_view() =~= before_errs + entry_violation(
                            c0,
                            key@,
                            en,
                        ));
                    }
                }
            },
        }
        i = i + 1;
    }
    proof {
        assert(skv.take(total as int) =~= skv);
    }
    if errors.len() == 0 {
        proof {
            assert(spec_violations(c0, skv).len() == 0);
        }
        Ok(())
    } else {
        Err(errors)
    }
}

} // verus!
