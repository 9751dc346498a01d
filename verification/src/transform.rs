//! Inline XBRL transforms: reading displayed numbers and dates back into
//! their canonical lexical forms.

use vstd::prelude::*;

use crate::decimal::{decimal_div, decimal_from_str, decimal_mul, Decimal};
use crate::error::XbrlError;
use crate::text::{
    trim, trim_chars, trim_end_char, trim_end_char_chars, trim_start_char, trim_start_char_chars,
    string_of, is_blank, split_once, split_once_chars, strip_suffix_char, strip_suffix_char_chars,
    strip_prefix, strip_prefix_chars, pad_zero, pad_zero_chars, parse_u32, parse_u32_chars,
    concat_chars,
    ascii_lower_chars, ascii_lower_seq, chars_of, copy_chars, dec_string, eq_ignore_ascii_case,
    eq_ignore_case_lit, is_lit, opt_view, rsplit_once, rsplit_once_chars, split_whitespace_chars,
    subst, subst_chars, u64_to_chars, ws_words,
};
use crate::types::InlineMeta;

verus! {

// ---------------------------------------------------------------------------
// Format names
// ---------------------------------------------------------------------------

/// The local part of a transform format name (`ixt:numdotdecimal` -> `numdotdecimal`).
pub open spec fn format_local(f: Seq<char>) -> Seq<char> {
    match rsplit_once(f, ':') {
        Some((_, l)) => l,
        None => f,
    }
}

/// The `format` attribute of an inline fact, if any.
pub open spec fn meta_format(meta: Option<InlineMeta>) -> Option<Seq<char>> {
    match meta {
        Some(m) => opt_view(m.format),
        None => None,
    }
}

/// The local part of a format name.
pub fn format_local_name(f: &[char]) -> (r: Vec<char>)
    ensures
        r@ == format_local(f@),
{
    match rsplit_once_chars(f, ':') {
        Some((_, l)) => l,
        None => copy_chars(f),
    }
}

/// The characters of the `format` attribute, if any.
pub fn format_of(meta: &Option<InlineMeta>) -> (r: Option<Vec<char>>)
    ensures
        match r {
            Some(v) => meta_format(*meta) == Some(v@),
            None => meta_format(*meta) is None,
        },
{
    match meta {
        Some(m) => match &m.format {
            Some(f) => Some(chars_of(f.as_str())),
            None => None,
        },
        None => None,
    }
}

// ---------------------------------------------------------------------------
// Zero dashes
// ---------------------------------------------------------------------------

/// A lone dash that stands for zero: `-`, U+2212, U+FF0D or U+2014.
pub open spec fn is_dash_text(t: Seq<char>) -> bool {
    t == seq!['-'] || t == seq!['\u{2212}'] || t == seq!['\u{ff0d}'] || t == seq!['\u{2014}']
}

/// A dash under a `zerodash`, `numdash` or `fixed-zero` format reads as zero.
pub open spec fn is_zero_dash(t: Seq<char>, format: Option<Seq<char>>) -> bool {
    is_dash_text(t) && match format {
        Some(f) => {
            let l = format_local(f);
            eq_ignore_ascii_case(l, "zerodash"@) || eq_ignore_ascii_case(l, "numdash"@)
                || eq_ignore_ascii_case(l, "fixed-zero"@)
        },
        None => false,
    }
}

pub fn is_zero_dash_chars(t: &[char], format: &Option<Vec<char>>) -> (r: bool)
    ensures
        r == is_zero_dash(
            t@,
            match format {
                Some(f) => Some(f@),
                None => None,
            },
        ),
{
    let dash = t.len() == 1 && (t[0] == '-' || t[0] == '\u{2212}' || t[0] == '\u{ff0d}' || t[0]
        == '\u{2014}');
    proof {
        if t@.len() == 1 {
            assert(t@ == seq![t@[0]]);
        }
    }
    if !dash {
        return false;
    }
    match format {
        Some(f) => {
            let l = format_local_name(f.as_slice());
            eq_ignore_case_lit(l.as_slice(), "zerodash") || eq_ignore_case_lit(
                l.as_slice(),
                "numdash",
            ) || eq_ignore_case_lit(l.as_slice(), "fixed-zero")
        },
        None => false,
    }
}

// ---------------------------------------------------------------------------
// English number words (ixt-sec:numwordsen)
// ---------------------------------------------------------------------------

/// The value of a number word below one hundred.
pub open spec fn word_value(w: Seq<char>) -> Option<int> {
    if w == "zero"@ { Some(0) }
    else if w == "one"@ { Some(1) }
    else if w == "two"@ { Some(2) }
    else if w == "three"@ { Some(3) }
    else if w == "four"@ { Some(4) }
    else if w == "five"@ { Some(5) }
    else if w == "six"@ { Some(6) }
    else if w == "seven"@ { Some(7) }
    else if w == "eight"@ { Some(8) }
    else if w == "nine"@ { Some(9) }
    else if w == "ten"@ { Some(10) }
    else if w == "eleven"@ { Some(11) }
    else if w == "twelve"@ { Some(12) }
    else if w == "thirteen"@ { Some(13) }
    else if w == "fourteen"@ { Some(14) }
    else if w == "fifteen"@ { Some(15) }
    else if w == "sixteen"@ { Some(16) }
    else if w == "seventeen"@ { Some(17) }
    else if w == "eighteen"@ { Some(18) }
    else if w == "nineteen"@ { Some(19) }
    else if w == "twenty"@ { Some(20) }
    else if w == "thirty"@ { Some(30) }
    else if w == "forty"@ { Some(40) }
    else if w == "fifty"@ { Some(50) }
    else if w == "sixty"@ { Some(60) }
    else if w == "seventy"@ { Some(70) }
    else if w == "eighty"@ { Some(80) }
    else if w == "ninety"@ { Some(90) }
    else { None }
}

pub fn word_value_of(w: &[char]) -> (r: Option<u64>)
    ensures
        match r {
            Some(v) => word_value(w@) == Some(v as int),
            None => word_value(w@) is None,
        },
{
    if is_lit(w, "zero") { Some(0) }
    else if is_lit(w, "one") { Some(1) }
    else if is_lit(w, "two") { Some(2) }
    else if is_lit(w, "three") { Some(3) }
    else if is_lit(w, "four") { Some(4) }
    else if is_lit(w, "five") { Some(5) }
    else if is_lit(w, "six") { Some(6) }
    else if is_lit(w, "seven") { Some(7) }
    else if is_lit(w, "eight") { Some(8) }
    else if is_lit(w, "nine") { Some(9) }
    else if is_lit(w, "ten") { Some(10) }
    else if is_lit(w, "eleven") { Some(11) }
    else if is_lit(w, "twelve") { Some(12) }
    else if is_lit(w, "thirteen") { Some(13) }
    else if is_lit(w, "fourteen") { Some(14) }
    else if is_lit(w, "fifteen") { Some(15) }
    else if is_lit(w, "sixteen") { Some(16) }
    else if is_lit(w, "seventeen") { Some(17) }
    else if is_lit(w, "eighteen") { Some(18) }
    else if is_lit(w, "nineteen") { Some(19) }
    else if is_lit(w, "twenty") { Some(20) }
    else if is_lit(w, "thirty") { Some(30) }
    else if is_lit(w, "forty") { Some(40) }
    else if is_lit(w, "fifty") { Some(50) }
    else if is_lit(w, "sixty") { Some(60) }
    else if is_lit(w, "seventy") { Some(70) }
    else if is_lit(w, "eighty") { Some(80) }
    else if is_lit(w, "ninety") { Some(90) }
    else { None }
}

/// The multiplier of a scale word (`hundred` multiplies the running group).
pub open spec fn scale_word(w: Seq<char>) -> Option<int> {
    if w == "thousand"@ { Some(1_000) }
    else if w == "million"@ { Some(1_000_000) }
    else if w == "billion"@ { Some(1_000_000_000) }
    else if w == "trillion"@ { Some(1_000_000_000_000) }
    else { None }
}

/// Reads number words left to right with a running total and current group:
/// `hundred` multiplies the group by 100, a scale word adds group times the
/// scale to the total and starts a new group, other words add their value to
/// the group; an empty group counts as one before `hundred` or a scale word.
pub open spec fn words_fold(ts: Seq<Seq<char>>, total: int, current: int) -> Option<(int, int)>
    decreases ts.len(),
{
    if ts.len() == 0 {
        Some((total, current))
    } else {
        let t = ts[0];
        let rest = ts.drop_first();
        let group = if current == 0 {
            1
        } else {
            current
        };
        if t == "hundred"@ {
            words_fold(rest, total, group * 100)
        } else {
            match scale_word(t) {
                Some(m) => words_fold(rest, total + group * m, 0),
                None => match word_value(t) {
                    Some(v) => words_fold(rest, total, current + v),
                    None => None,
                },
            }
        }
    }
}

/// The words of an English number text: lowercased, hyphens as spaces,
/// split on white space, without `and`.
pub open spec fn number_words(input: Seq<char>) -> Seq<Seq<char>> {
    ws_words(subst(ascii_lower_seq(input), '-', seq![' '])).filter(|t: Seq<char>| is_not_and(t))
}

/// A word other than `and`.
pub open spec fn is_not_and(t: Seq<char>) -> bool {
    t != "and"@
}

/// The digits of a spelled-out English number, or `None` when a word is not
/// a number word, there are no words, or the value exceeds `u64`.
pub open spec fn english_words_value(input: Seq<char>) -> Option<Seq<char>> {
    let ts = number_words(input);
    if ts.len() == 0 {
        None
    } else {
        match words_fold(ts, 0, 0) {
            Some((t, c)) => if t + c <= u64::MAX {
                Some(dec_string((t + c) as nat))
            } else {
                None
            },
            None => None,
        }
    }
}

proof fn lemma_words_fold_grows(ts: Seq<Seq<char>>, total: int, current: int)
    requires
        total >= 0,
        current >= 0,
    ensures
        words_fold(ts, total, current) matches Some((t, c)) ==> t >= 0 && c >= 0 && t + c >= total
            + current,
    decreases ts.len(),
{
    if ts.len() > 0 {
        let t = ts[0];
        let rest = ts.drop_first();
        let group = if current == 0 {
            1int
        } else {
            current
        };
        if t == "hundred"@ {
            lemma_words_fold_grows(rest, total, group * 100);
        } else {
            match scale_word(t) {
                Some(m) => {
                    assert(group * m >= group) by (nonlinear_arith)
                        requires
                            group >= 1,
                            m >= 1,
                    ;
                    lemma_words_fold_grows(rest, total + group * m, 0);
                },
                None => match word_value(t) {
                    Some(v) => {
                        lemma_words_fold_grows(rest, total, current + v);
                    },
                    None => {},
                },
            }
        }
    }
}

/// Converts spelled-out English numbers ("one", "twenty-three",
/// "one hundred million") to their digits.
pub fn english_words_to_number(input: &[char]) -> (r: Option<Vec<char>>)
    ensures
        match r {
            Some(v) => english_words_value(input@) == Some(v@),
            None => english_words_value(input@) is None,
        },
{
    let lower = ascii_lower_chars(input);
    let sp: [char; 1] = [' '];
    let spaced = subst_chars(lower.as_slice(), '-', sp.as_slice());
    assert(sp@ == seq![' ']);
    let words = split_whitespace_chars(spaced.as_slice());
    let ghost all_words = ws_words(spaced@);
    let ghost pred = |t: Seq<char>| is_not_and(t);
    let mut tokens: Vec<Vec<char>> = Vec::new();
    let mut i: usize = 0;
    while i < words.len()
        invariant
            words@.len() == all_words.len(),
            forall|k: int| 0 <= k < words@.len() ==> (#[trigger] words@[k])@ == all_words[k],
            i <= words@.len(),
            forall|t: Seq<char>| #[trigger] pred(t) == is_not_and(t),
            tokens@.len() == all_words.take(i as int).filter(pred).len(),
            forall|k: int|
                0 <= k < tokens@.len() ==> (#[trigger] tokens@[k])@ == all_words.take(
                    i as int,
                ).filter(pred)[k],
        decreases words@.len() - i,
    {
        let ghost before = all_words.take(i as int);
        proof {
            assert(all_words.take(i + 1) == before.push(all_words[i as int]));
            before.lemma_filter_push(all_words[i as int], pred);
        }
        if !is_lit(words[i].as_slice(), "and") {
            tokens.push(copy_chars(words[i].as_slice()));
        }
        i += 1;
    }
    assert(all_words.take(i as int) == all_words);
    let ghost ts = all_words.filter(pred);
    assert(pred =~= (|t: Seq<char>| is_not_and(t)));
    assert(ts == number_words(input@));
    assert(ts.skip(0) == ts);
    if tokens.len() == 0 {
        return None;
    }
    let mut total: u64 = 0;
    let mut current: u64 = 0;
    let mut j: usize = 0;
    while j < tokens.len()
        invariant
            tokens@.len() == ts.len(),
            forall|k: int| 0 <= k < tokens@.len() ==> (#[trigger] tokens@[k])@ == ts[k],
            j <= tokens@.len(),
            ts == number_words(input@),
            ts.len() > 0,
            words_fold(ts, 0, 0) == words_fold(ts.skip(j as int), total as int, current as int),
        decreases tokens@.len() - j,
    {
        let t = tokens[j].as_slice();
        let ghost rest = ts.skip(j + 1);
        proof {
            assert(tokens@[j as int]@ == ts[j as int]);
            assert(t@ == ts[j as int]);
            assert(ts.skip(j as int)[0] == ts[j as int]);
            assert(ts.skip(j as int).drop_first() == rest);
        }
        let group: u64 = if current == 0 {
            1
        } else {
            current
        };
        if is_lit(t, "hundred") {
            match group.checked_mul(100) {
                Some(g) => {
                    current = g;
                },
                None => {
                    proof {
                        lemma_words_fold_grows(rest, total as int, group * 100);
                        assert(words_fold(ts.skip(j as int), total as int, current as int)
                            == words_fold(rest, total as int, group * 100));
                    }
                    return None;
                },
            }
        } else {
            let m: u64 = if is_lit(t, "thousand") {
                1_000
            } else if is_lit(t, "million") {
                1_000_000
            } else if is_lit(t, "billion") {
                1_000_000_000
            } else if is_lit(t, "trillion") {
                1_000_000_000_000
            } else {
                0
            };
            if m > 0 {
                assert(scale_word(t@) == Some(m as int));
                let add = match group.checked_mul(m) {
                    Some(a) => a,
                    None => {
                        proof {
                            lemma_words_fold_grows(rest, total + group * m, 0);
                        }
                        return None;
                    },
                };
                match total.checked_add(add) {
                    Some(s) => {
                        total = s;
                        current = 0;
                    },
                    None => {
                        proof {
                            lemma_words_fold_grows(rest, total + group * m, 0);
                            assert(add == group * m);
                            assert(words_fold(ts.skip(j as int), total as int, current as int)
                                == words_fold(rest, total + group * m, 0));
                        }
                        return None;
                    },
                }
            } else {
                assert(scale_word(t@) is None);
                match word_value_of(t) {
                    Some(v) => match current.checked_add(v) {
                        Some(c) => {
                            current = c;
                        },
                        None => {
                            proof {
                                lemma_words_fold_grows(rest, total as int, current + v);
                            }
                            return None;
                        },
                    },
                    None => {
                        return None;
                    },
                }
            }
        }
        j += 1;
    }
    assert(ts.skip(j as int).len() == 0);
    match total.checked_add(current) {
        Some(n) => Some(u64_to_chars(n)),
        None => None,
    }
}


// ---------------------------------------------------------------------------
// Numeric text
// ---------------------------------------------------------------------------

/// Whether the local format name equals `lit`, ignoring ASCII case.
pub open spec fn format_is(format: Option<Seq<char>>, lit: Seq<char>) -> bool {
    match format {
        Some(f) => eq_ignore_ascii_case(format_local(f), lit),
        None => false,
    }
}

/// A parenthesized amount: starts with `(` and ends with `)`.
pub open spec fn is_parenthesized(t: Seq<char>) -> bool {
    t.len() > 0 && t[0] == '(' && t.last() == ')'
}

/// The canonical numeral of an inline numeric text, before sign and scale:
/// `numwordsen` words read as digits; otherwise spaces and no-break spaces
/// dropped, a parenthesized amount made negative, a zero dash read as `0`,
/// and grouping separators removed (`,` under most formats; `.` with `,` as
/// the decimal mark under `numcommadecimal`).
pub open spec fn normalize_numeric(raw: Seq<char>, meta: Option<InlineMeta>) -> Seq<char> {
    let raw_trim = trim(raw);
    let format = meta_format(meta);
    if format_is(format, "numwordsen"@) && english_words_value(raw_trim) is Some {
        english_words_value(raw_trim).unwrap()
    } else {
        let text = subst(subst(raw_trim, ' ', Seq::empty()), '\u{a0}', Seq::empty());
        let paren = is_parenthesized(text);
        let text = if paren {
            trim_end_char(trim_start_char(text, '('), ')')
        } else {
            text
        };
        let normalized = if is_zero_dash(text, format) {
            seq!['0']
        } else if format_is(format, "numcommadecimal"@) {
            subst(subst(text, '.', Seq::empty()), ',', seq!['.'])
        } else {
            subst(text, ',', Seq::empty())
        };
        if paren && !(normalized.len() > 0 && normalized[0] == '-') {
            seq!['-'] + normalized
        } else {
            normalized
        }
    }
}

/// Whether the format's local name equals `lit` ignoring ASCII case.
fn format_is_lit(format: &Option<Vec<char>>, lit: &str) -> (r: bool)
    ensures
        r == format_is(
            match format {
                Some(f) => Some(f@),
                None => None,
            },
            lit@,
        ),
{
    match format {
        Some(f) => {
            let l = format_local_name(f.as_slice());
            eq_ignore_case_lit(l.as_slice(), lit)
        },
        None => false,
    }
}

/// Normalizes the text of an inline numeric fact to a plain numeral.
pub fn normalize_numeric_text(raw: &[char], meta: &Option<InlineMeta>) -> (r: Vec<char>)
    ensures
        r@ == normalize_numeric(raw@, *meta),
{
    let raw_trim = trim_chars(raw);
    let format = format_of(meta);
    if format_is_lit(&format, "numwordsen") {
        match english_words_to_number(raw_trim.as_slice()) {
            Some(num) => {
                return num;
            },
            None => {},
        }
    }
    let empty: Vec<char> = Vec::new();
    let t1 = subst_chars(raw_trim.as_slice(), ' ', empty.as_slice());
    let t2 = subst_chars(t1.as_slice(), '\u{a0}', empty.as_slice());
    let paren = t2.len() > 0 && t2[0] == '(' && t2[t2.len() - 1] == ')';
    let text = if paren {
        let a = trim_start_char_chars(t2.as_slice(), '(');
        trim_end_char_chars(a.as_slice(), ')')
    } else {
        t2
    };
    let mut normalized = if is_zero_dash_chars(text.as_slice(), &format) {
        let mut z: Vec<char> = Vec::new();
        z.push('0');
        z
    } else if format_is_lit(&format, "numcommadecimal") {
        let dot: [char; 1] = ['.'];
        let a = subst_chars(text.as_slice(), '.', empty.as_slice());
        let b = subst_chars(a.as_slice(), ',', dot.as_slice());
        assert(dot@ == seq!['.']);
        b
    } else {
        subst_chars(text.as_slice(), ',', empty.as_slice())
    };
    if paren && !(normalized.len() > 0 && normalized[0] == '-') {
        normalized.insert(0, '-');
    }
    proof {
        assert(empty@ == Seq::<char>::empty());
    }
    normalized
}

/// `10`, as a decimal.
pub open spec fn ten() -> (bool, int, int) {
    (false, 10, 0)
}

/// `d` multiplied by ten `k` times (`None` once a product overflows).
pub open spec fn times_ten(d: Option<(bool, int, int)>, k: nat) -> Option<(bool, int, int)>
    decreases k,
{
    if k == 0 {
        d
    } else {
        match times_ten(d, (k - 1) as nat) {
            Some(q) => decimal_mul(q, ten()),
            None => None,
        }
    }
}

/// `d` divided by ten `k` times.
pub open spec fn div_ten(d: Option<(bool, int, int)>, k: nat) -> Option<(bool, int, int)>
    decreases k,
{
    if k == 0 {
        d
    } else {
        match div_ten(d, (k - 1) as nat) {
            Some(q) => decimal_div(q, ten()),
            None => None,
        }
    }
}

/// `d * 10^scale`, step by step as `rust_decimal` computes it.
pub open spec fn scaled(d: (bool, int, int), scale: int) -> Option<(bool, int, int)> {
    if scale >= 0 {
        times_ten(Some(d), scale as nat)
    } else {
        div_ten(Some(d), (-scale) as nat)
    }
}

/// Multiplies `value` by ten `scale` times, or divides it by ten `-scale`
/// times; `None` when a step overflows.
pub fn apply_scale(value: Decimal, scale: i32) -> (r: Option<Decimal>)
    ensures
        match r {
            Some(d) => scaled(value.parts(), scale as int) == Some(d.parts()),
            None => scaled(value.parts(), scale as int) is None,
        },
{
    let ten_d = Decimal::new(10, 0);
    assert(ten_d.parts() == ten());
    let mut v = value;
    if scale >= 0 {
        let mut i: i32 = 0;
        while i < scale
            invariant
                0 <= i <= scale,
                ten_d.parts() == ten(),
                times_ten(Some(value.parts()), i as nat) == Some(v.parts()),
            decreases scale - i,
        {
            match v.checked_mul(&ten_d) {
                Some(n) => {
                    v = n;
                },
                None => {
                    proof {
                        lemma_times_ten_none(value.parts(), (i + 1) as nat, scale as nat);
                    }
                    return None;
                },
            }
            i += 1;
        }
        Some(v)
    } else {
        let mut i: i32 = scale;
        while i < 0
            invariant
                scale <= i <= 0,
                ten_d.parts() == ten(),
                div_ten(Some(value.parts()), (i - scale) as nat) == Some(v.parts()),
            decreases 0 - i,
        {
            match v.checked_div(&ten_d) {
                Some(n) => {
                    v = n;
                },
                None => {
                    proof {
                        lemma_div_ten_none(value.parts(), (i - scale + 1) as nat, (-scale) as nat);
                    }
                    return None;
                },
            }
            i += 1;
        }
        Some(v)
    }
}

proof fn lemma_times_ten_none(d: (bool, int, int), k: nat, n: nat)
    requires
        k <= n,
        times_ten(Some(d), k) is None,
    ensures
        times_ten(Some(d), n) is None,
    decreases n - k,
{
    if k < n {
        lemma_times_ten_none(d, k + 1, n);
    }
}

proof fn lemma_div_ten_none(d: (bool, int, int), k: nat, n: nat)
    requires
        k <= n,
        div_ten(Some(d), k) is None,
    ensures
        div_ten(Some(d), n) is None,
    decreases n - k,
{
    if k < n {
        lemma_div_ten_none(d, k + 1, n);
    }
}

/// The `sign` attribute is `-`.
pub open spec fn meta_negative(meta: Option<InlineMeta>) -> bool {
    match meta {
        Some(m) => opt_view(m.sign) == Some(seq!['-']),
        None => false,
    }
}

/// The `scale` attribute.
pub open spec fn meta_scale(meta: Option<InlineMeta>) -> Option<i32> {
    match meta {
        Some(m) => m.scale,
        None => None,
    }
}

/// The numeral parsed for a numeric fact: the normalized text, negated when
/// `sign="-"` and not already negative.
pub open spec fn signed_numeral(raw: Seq<char>, meta: Option<InlineMeta>) -> Seq<char> {
    let n = normalize_numeric(raw, meta);
    if meta_negative(meta) && !(n.len() > 0 && n[0] == '-') {
        seq!['-'] + n
    } else {
        n
    }
}

/// The decimal value of a numeric fact (representation as `rust_decimal`
/// gives it), or `None` when the text is not a decimal or scaling overflows.
pub open spec fn numeric_value(raw: Seq<char>, meta: Option<InlineMeta>) -> Option<(bool, int, int)> {
    if normalize_numeric(raw, meta).len() == 0 {
        None
    } else {
        match decimal_from_str(signed_numeral(raw, meta)) {
            Some(d) => match meta_scale(meta) {
                Some(s) => scaled(d, s as int),
                None => Some(d),
            },
            None => None,
        }
    }
}

/// Reads the decimal value of a numeric fact's text, applying inline
/// `format`, `sign` and `scale`. Fails with `InvalidDecimal` (carrying the
/// raw text) when there is no decimal to read or scaling overflows.
pub fn parse_normalized_decimal(raw: &str, meta: &Option<InlineMeta>) -> (r: Result<
    Decimal,
    XbrlError,
>)
    ensures
        match r {
            Ok(d) => numeric_value(raw@, *meta) == Some(d.parts()),
            Err(e) => numeric_value(raw@, *meta) is None && (e matches XbrlError::InvalidDecimal {
                raw: r2,
            } && r2@ == raw@),
        },
{
    let raw_chars = chars_of(raw);
    let mut normalized = normalize_numeric_text(raw_chars.as_slice(), meta);
    if normalized.len() == 0 {
        return Err(XbrlError::InvalidDecimal { raw: raw.to_owned() });
    }
    let neg = match meta {
        Some(m) => match &m.sign {
            Some(sg) => is_lit(chars_of(sg.as_str()).as_slice(), "-"),
            None => false,
        },
        None => false,
    };
    proof {
        reveal_strlit("-");
        assert("-"@ =~= seq!['-']);
        assert(neg == meta_negative(*meta));
    }
    let ghost before = normalized@;
    if neg && !(normalized.len() > 0 && normalized[0] == '-') {
        normalized.insert(0, '-');
        assert(normalized@ =~= seq!['-'] + before);
    }
    assert(normalized@ == signed_numeral(raw@, *meta));
    let text = string_of(normalized.as_slice());
    let decimal = match Decimal::parse(text.as_str()) {
        Some(d) => d,
        None => {
            return Err(XbrlError::InvalidDecimal { raw: raw.to_owned() });
        },
    };
    let scale = match meta {
        Some(m) => m.scale,
        None => None,
    };
    match scale {
        Some(s) => match apply_scale(decimal, s) {
            Some(d) => Ok(d),
            None => Err(XbrlError::InvalidDecimal { raw: raw.to_owned() }),
        },
        None => Ok(decimal),
    }
}


// ---------------------------------------------------------------------------
// Digits and dates
// ---------------------------------------------------------------------------

/// The ASCII digit a character denotes: ASCII and full-width digits, and the
/// CJK numerals for zero to nine (including the formal forms of one to three).
pub open spec fn digit_of(c: char) -> Option<char> {
    let u = c as u32;
    if '0' <= c <= '9' {
        Some(c)
    } else if 0xff10 <= u <= 0xff19 {
        Some((u - 0xff10 + 0x30) as char)
    } else if u == 0x3007 || u == 0x96f6 {
        Some('0')
    } else if u == 0x4e00 || u == 0x58f1 {
        Some('1')
    } else if u == 0x4e8c || u == 0x5f10 {
        Some('2')
    } else if u == 0x4e09 || u == 0x53c2 {
        Some('3')
    } else if u == 0x56db {
        Some('4')
    } else if u == 0x4e94 {
        Some('5')
    } else if u == 0x516d {
        Some('6')
    } else if u == 0x4e03 {
        Some('7')
    } else if u == 0x516b {
        Some('8')
    } else if u == 0x4e5d {
        Some('9')
    } else {
        None
    }
}

/// Every character mapped by `digit_of`, or `None` if one is not a digit.
pub open spec fn ascii_digits(s: Seq<char>) -> Option<Seq<char>> {
    if forall|k: int| 0 <= k < s.len() ==> (#[trigger] digit_of(s[k])) is Some {
        Some(s.map_values(|c: char| digit_of(c).unwrap()))
    } else {
        None
    }
}

fn digit_of_char(c: char) -> (r: Option<char>)
    ensures
        r == digit_of(c),
{
    let u = c as u32;
    if '0' <= c && c <= '9' {
        Some(c)
    } else if 0xff10 <= u && u <= 0xff19 {
        let b: u8 = (u - 0xff10 + 0x30) as u8;
        Some(b as char)
    } else if u == 0x3007 || u == 0x96f6 {
        Some('0')
    } else if u == 0x4e00 || u == 0x58f1 {
        Some('1')
    } else if u == 0x4e8c || u == 0x5f10 {
        Some('2')
    } else if u == 0x4e09 || u == 0x53c2 {
        Some('3')
    } else if u == 0x56db {
        Some('4')
    } else if u == 0x4e94 {
        Some('5')
    } else if u == 0x516d {
        Some('6')
    } else if u == 0x4e03 {
        Some('7')
    } else if u == 0x516b {
        Some('8')
    } else if u == 0x4e5d {
        Some('9')
    } else {
        None
    }
}

/// Maps CJK and full-width digits to ASCII digits.
pub fn to_ascii_digits(v: &[char]) -> (r: Option<Vec<char>>)
    ensures
        match r {
            Some(o) => ascii_digits(v@) == Some(o@),
            None => ascii_digits(v@) is None,
        },
{
    let mut out: Vec<char> = Vec::new();
    let mut i: usize = 0;
    while i < v.len()
        invariant
            i <= v@.len(),
            out@.len() == i,
            forall|k: int| 0 <= k < i ==> (#[trigger] digit_of(v@[k])) is Some,
            forall|k: int| 0 <= k < i ==> out@[k] == digit_of(v@[k]).unwrap(),
        decreases v@.len() - i,
    {
        match digit_of_char(v[i]) {
            Some(d) => {
                out.push(d);
            },
            None => {
                assert(digit_of(v@[i as int]) is None);
                return None;
            },
        }
        i += 1;
    }
    assert(out@ =~= v@.map_values(|c: char| digit_of(c).unwrap()));
    Some(out)
}

/// `year-month-day` from `YYYY年M月D日` (U+5E74, U+6708, U+65E5).
pub open spec fn date_ymd_cjk(raw: Seq<char>) -> Option<Seq<char>> {
    let t = trim(raw);
    match split_once(t, '\u{5e74}') {
        Some((y, rest)) => match split_once(rest, '\u{6708}') {
            Some((m, rest2)) => match strip_suffix_char(rest2, '\u{65e5}') {
                Some(d) => match (ascii_digits(trim(y)), ascii_digits(trim(m)), ascii_digits(trim(d))) {
                    (Some(y), Some(m), Some(d)) => Some(
                        pad_zero(y, 4) + seq!['-'] + pad_zero(m, 2) + seq!['-'] + pad_zero(d, 2),
                    ),
                    _ => None,
                },
                None => None,
            },
            None => None,
        },
        None => None,
    }
}

/// `year-month` from `YYYY年M月`.
pub open spec fn date_ym_cjk(raw: Seq<char>) -> Option<Seq<char>> {
    let t = trim(raw);
    match split_once(t, '\u{5e74}') {
        Some((y, rest)) => match strip_suffix_char(rest, '\u{6708}') {
            Some(m) => match (ascii_digits(trim(y)), ascii_digits(trim(m))) {
                (Some(y), Some(m)) => Some(pad_zero(y, 4) + seq!['-'] + pad_zero(m, 2)),
                _ => None,
            },
            None => None,
        },
        None => None,
    }
}

/// `--month-day` from `M月D日`.
pub open spec fn date_md_cjk(raw: Seq<char>) -> Option<Seq<char>> {
    let t = trim(raw);
    match split_once(t, '\u{6708}') {
        Some((m, rest)) => match strip_suffix_char(rest, '\u{65e5}') {
            Some(d) => match (ascii_digits(trim(m)), ascii_digits(trim(d))) {
                (Some(m), Some(d)) => Some(
                    seq!['-', '-'] + pad_zero(m, 2) + seq!['-'] + pad_zero(d, 2),
                ),
                _ => None,
            },
            None => None,
        },
        None => None,
    }
}

fn cat3(a: &[char], sep: char, b: &[char]) -> (r: Vec<char>)
    ensures
        r@ == a@ + seq![sep] + b@,
{
    let mut x = copy_chars(a);
    x.push(sep);
    let r = concat_chars(x.as_slice(), b);
    r
}

fn trimmed_digits(v: &[char]) -> (r: Option<Vec<char>>)
    ensures
        match r {
            Some(o) => ascii_digits(trim(v@)) == Some(o@),
            None => ascii_digits(trim(v@)) is None,
        },
{
    let t = trim_chars(v);
    to_ascii_digits(t.as_slice())
}

/// Reads a `YYYY年M月D日` date.
pub fn transform_date_ymd_cjk(raw: &[char]) -> (r: Option<Vec<char>>)
    ensures
        match r {
            Some(o) => date_ymd_cjk(raw@) == Some(o@),
            None => date_ymd_cjk(raw@) is None,
        },
{
    let t = trim_chars(raw);
    let (y, rest) = split_once_chars(t.as_slice(), '\u{5e74}')?;
    let (m, rest2) = split_once_chars(rest.as_slice(), '\u{6708}')?;
    let d = strip_suffix_char_chars(rest2.as_slice(), '\u{65e5}')?;
    let y = trimmed_digits(y.as_slice())?;
    let m = trimmed_digits(m.as_slice())?;
    let d = trimmed_digits(d.as_slice())?;
    let yp = pad_zero_chars(y.as_slice(), 4);
    let mp = pad_zero_chars(m.as_slice(), 2);
    let dp = pad_zero_chars(d.as_slice(), 2);
    let a = cat3(yp.as_slice(), '-', mp.as_slice());
    let r = cat3(a.as_slice(), '-', dp.as_slice());
    Some(r)
}

/// Reads a `YYYY年M月` date.
pub fn transform_date_ym_cjk(raw: &[char]) -> (r: Option<Vec<char>>)
    ensures
        match r {
            Some(o) => date_ym_cjk(raw@) == Some(o@),
            None => date_ym_cjk(raw@) is None,
        },
{
    let t = trim_chars(raw);
    let (y, rest) = split_once_chars(t.as_slice(), '\u{5e74}')?;
    let m = strip_suffix_char_chars(rest.as_slice(), '\u{6708}')?;
    let y = trimmed_digits(y.as_slice())?;
    let m = trimmed_digits(m.as_slice())?;
    let yp = pad_zero_chars(y.as_slice(), 4);
    let mp = pad_zero_chars(m.as_slice(), 2);
    Some(cat3(yp.as_slice(), '-', mp.as_slice()))
}

/// Reads a `M月D日` date.
pub fn transform_date_md_cjk(raw: &[char]) -> (r: Option<Vec<char>>)
    ensures
        match r {
            Some(o) => date_md_cjk(raw@) == Some(o@),
            None => date_md_cjk(raw@) is None,
        },
{
    let t = trim_chars(raw);
    let (m, rest) = split_once_chars(t.as_slice(), '\u{6708}')?;
    let d = strip_suffix_char_chars(rest.as_slice(), '\u{65e5}')?;
    let m = trimmed_digits(m.as_slice())?;
    let d = trimmed_digits(d.as_slice())?;
    let mp = pad_zero_chars(m.as_slice(), 2);
    let dp = pad_zero_chars(d.as_slice(), 2);
    let mut pre: Vec<char> = Vec::new();
    pre.push('-');
    let a = cat3(pre.as_slice(), '-', mp.as_slice());
    assert(pre@ + seq!['-'] + mp@ == seq!['-', '-'] + mp@);
    Some(cat3(a.as_slice(), '-', dp.as_slice()))
}

/// The Japanese eras, in the order they are tried, with the Gregorian year
/// before each era's first year.
pub open spec fn era_base(era: Seq<char>) -> Option<int> {
    if era == "\u{4ee4}\u{548c}"@ {
        Some(2018)
    } else if era == "\u{5e73}\u{6210}"@ {
        Some(1988)
    } else if era == "\u{662d}\u{548c}"@ {
        Some(1925)
    } else if era == "\u{5927}\u{6b63}"@ {
        Some(1911)
    } else if era == "\u{660e}\u{6cbb}"@ {
        Some(1867)
    } else {
        None
    }
}

/// The first era name that `s` starts with, and the rest of `s`.
pub open spec fn era_split(s: Seq<char>) -> Option<(Seq<char>, Seq<char>)> {
    if strip_prefix(s, "\u{4ee4}\u{548c}"@) is Some {
        Some(("\u{4ee4}\u{548c}"@, strip_prefix(s, "\u{4ee4}\u{548c}"@).unwrap()))
    } else if strip_prefix(s, "\u{5e73}\u{6210}"@) is Some {
        Some(("\u{5e73}\u{6210}"@, strip_prefix(s, "\u{5e73}\u{6210}"@).unwrap()))
    } else if strip_prefix(s, "\u{662d}\u{548c}"@) is Some {
        Some(("\u{662d}\u{548c}"@, strip_prefix(s, "\u{662d}\u{548c}"@).unwrap()))
    } else if strip_prefix(s, "\u{5927}\u{6b63}"@) is Some {
        Some(("\u{5927}\u{6b63}"@, strip_prefix(s, "\u{5927}\u{6b63}"@).unwrap()))
    } else if strip_prefix(s, "\u{660e}\u{6cbb}"@) is Some {
        Some(("\u{660e}\u{6cbb}"@, strip_prefix(s, "\u{660e}\u{6cbb}"@).unwrap()))
    } else {
        None
    }
}

/// Splits off a leading Japanese era name.
pub fn era_prefix(s: &[char]) -> (r: Option<(Vec<char>, Vec<char>)>)
    ensures
        match r {
            Some((e, rest)) => era_split(s@) == Some((e@, rest@)),
            None => era_split(s@) is None,
        },
{
    let eras: [&str; 5] = [
        "\u{4ee4}\u{548c}",
        "\u{5e73}\u{6210}",
        "\u{662d}\u{548c}",
        "\u{5927}\u{6b63}",
        "\u{660e}\u{6cbb}",
    ];
    let e0 = chars_of(eras[0]);
    match strip_prefix_chars(s, e0.as_slice()) {
        Some(rest) => {
            return Some((e0, rest));
        },
        None => {},
    }
    let e1 = chars_of(eras[1]);
    match strip_prefix_chars(s, e1.as_slice()) {
        Some(rest) => {
            return Some((e1, rest));
        },
        None => {},
    }
    let e2 = chars_of(eras[2]);
    match strip_prefix_chars(s, e2.as_slice()) {
        Some(rest) => {
            return Some((e2, rest));
        },
        None => {},
    }
    let e3 = chars_of(eras[3]);
    match strip_prefix_chars(s, e3.as_slice()) {
        Some(rest) => {
            return Some((e3, rest));
        },
        None => {},
    }
    let e4 = chars_of(eras[4]);
    match strip_prefix_chars(s, e4.as_slice()) {
        Some(rest) => {
            return Some((e4, rest));
        },
        None => {},
    }
    None
}

/// `YYYY-MM-DD` from a Japanese era date such as 令和7年6月26日
/// (the era's base year plus the era year; `None` past `u32::MAX`).
pub open spec fn date_era_ymd_jp(raw: Seq<char>) -> Option<Seq<char>> {
    let t = trim(raw);
    match era_split(t) {
        Some((era, rest)) => match split_once(rest, '\u{5e74}') {
            Some((y, rest2)) => match split_once(rest2, '\u{6708}') {
                Some((m, rest3)) => match strip_suffix_char(rest3, '\u{65e5}') {
                    Some(d) => match (ascii_digits(trim(y)), ascii_digits(trim(m)), ascii_digits(trim(d))) {
                        (Some(y), Some(m), Some(d)) => match (parse_u32(y), parse_u32(m), parse_u32(d)) {
                            (Some(yn), Some(mn), Some(dn)) => match era_base(era) {
                                Some(base) => if base + yn <= u32::MAX {
                                    Some(
                                        dec_string((base + yn) as nat) + seq!['-'] + pad_zero(
                                            dec_string(mn as nat),
                                            2,
                                        ) + seq!['-'] + pad_zero(dec_string(dn as nat), 2),
                                    )
                                } else {
                                    None
                                },
                                None => None,
                            },
                            _ => None,
                        },
                        _ => None,
                    },
                    None => None,
                },
                None => None,
            },
            None => None,
        },
        None => None,
    }
}

/// Reads a Japanese era date.
pub fn transform_date_era_ymd_jp(raw: &[char]) -> (r: Option<Vec<char>>)
    ensures
        match r {
            Some(o) => date_era_ymd_jp(raw@) == Some(o@),
            None => date_era_ymd_jp(raw@) is None,
        },
{
    let t = trim_chars(raw);
    let (era, rest) = era_prefix(t.as_slice())?;
    let (y, rest2) = split_once_chars(rest.as_slice(), '\u{5e74}')?;
    let (m, rest3) = split_once_chars(rest2.as_slice(), '\u{6708}')?;
    let d = strip_suffix_char_chars(rest3.as_slice(), '\u{65e5}')?;
    let y = trimmed_digits(y.as_slice())?;
    let m = trimmed_digits(m.as_slice())?;
    let d = trimmed_digits(d.as_slice())?;
    let yn = parse_u32_chars(y.as_slice())?;
    let mn = parse_u32_chars(m.as_slice())?;
    let dn = parse_u32_chars(d.as_slice())?;
    let base: u32 = if is_lit(era.as_slice(), "\u{4ee4}\u{548c}") {
        2018
    } else if is_lit(era.as_slice(), "\u{5e73}\u{6210}") {
        1988
    } else if is_lit(era.as_slice(), "\u{662d}\u{548c}") {
        1925
    } else if is_lit(era.as_slice(), "\u{5927}\u{6b63}") {
        1911
    } else if is_lit(era.as_slice(), "\u{660e}\u{6cbb}") {
        1867
    } else {
        return None;
    };
    let year = base.checked_add(yn)?;
    let ys = u64_to_chars(year as u64);
    let ms = u64_to_chars(mn as u64);
    let ds = u64_to_chars(dn as u64);
    let mp = pad_zero_chars(ms.as_slice(), 2);
    let dp = pad_zero_chars(ds.as_slice(), 2);
    let a = cat3(ys.as_slice(), '-', mp.as_slice());
    Some(cat3(a.as_slice(), '-', dp.as_slice()))
}

// ---------------------------------------------------------------------------
// Text transforms
// ---------------------------------------------------------------------------

/// The canonical text of a non-numeric inline fact under its `format`:
/// CJK and Japanese era dates become ISO dates (left as they are when they
/// do not parse), the fixed and boolean formats give their constant, and
/// other formats leave the text unchanged.
pub open spec fn text_transform(raw: Seq<char>, meta: Option<InlineMeta>) -> Seq<char> {
    match meta_format(meta) {
        None => raw,
        Some(f) => {
            let l = ascii_lower_seq(format_local(f));
            if l == "dateyearmonthdaycjk"@ {
                match date_ymd_cjk(raw) {
                    Some(x) => x,
                    None => raw,
                }
            } else if l == "dateyearmonthcjk"@ {
                match date_ym_cjk(raw) {
                    Some(x) => x,
                    None => raw,
                }
            } else if l == "datemonthdaycjk"@ {
                match date_md_cjk(raw) {
                    Some(x) => x,
                    None => raw,
                }
            } else if l == "dateerayearmonthdayjp"@ {
                match date_era_ymd_jp(raw) {
                    Some(x) => x,
                    None => raw,
                }
            } else if l == "booleanfalse"@ || l == "fixed-false"@ {
                "false"@
            } else if l == "booleantrue"@ || l == "fixed-true"@ {
                "true"@
            } else if l == "fixed-empty"@ || l == "nocontent"@ {
                Seq::empty()
            } else {
                raw
            }
        },
    }
}

/// Applies the text transform named by an inline fact's `format`.
pub fn apply_text_transform(raw: &str, meta: &Option<InlineMeta>) -> (r: String)
    ensures
        r@ == text_transform(raw@, *meta),
{
    let format = match format_of(meta) {
        Some(f) => f,
        None => {
            return raw.to_owned();
        },
    };
    let local = format_local_name(format.as_slice());
    let l = ascii_lower_chars(local.as_slice());
    let rc = chars_of(raw);
    let ls = l.as_slice();
    if is_lit(ls, "dateyearmonthdaycjk") {
        match transform_date_ymd_cjk(rc.as_slice()) {
            Some(x) => string_of(x.as_slice()),
            None => raw.to_owned(),
        }
    } else if is_lit(ls, "dateyearmonthcjk") {
        match transform_date_ym_cjk(rc.as_slice()) {
            Some(x) => string_of(x.as_slice()),
            None => raw.to_owned(),
        }
    } else if is_lit(ls, "datemonthdaycjk") {
        match transform_date_md_cjk(rc.as_slice()) {
            Some(x) => string_of(x.as_slice()),
            None => raw.to_owned(),
        }
    } else if is_lit(ls, "dateerayearmonthdayjp") {
        match transform_date_era_ymd_jp(rc.as_slice()) {
            Some(x) => string_of(x.as_slice()),
            None => raw.to_owned(),
        }
    } else if is_lit(ls, "booleanfalse") || is_lit(ls, "fixed-false") {
        "false".to_owned()
    } else if is_lit(ls, "booleantrue") || is_lit(ls, "fixed-true") {
        "true".to_owned()
    } else if is_lit(ls, "fixed-empty") || is_lit(ls, "nocontent") {
        String::new()
    } else {
        raw.to_owned()
    }
}


// ---------------------------------------------------------------------------
// Laws
// ---------------------------------------------------------------------------

/// Replacing `c` by nothing drops every `c` and keeps the rest in order.
proof fn lemma_subst_drop(s: Seq<char>, c: char)
    ensures
        subst(s, c, Seq::empty()) == s.filter(|x: char| x != c),
    decreases s.len(),
{
    reveal(Seq::filter);
    if s.len() > 0 {
        lemma_subst_drop(s.drop_last(), c);
        assert(s.filter(|x: char| x != c) == (if s.last() != c {
            s.drop_last().filter(|x: char| x != c).push(s.last())
        } else {
            s.drop_last().filter(|x: char| x != c)
        }));
    }
}

/// Replacing `c` by `d` maps every `c` to `d` and keeps the rest.
proof fn lemma_subst_swap(s: Seq<char>, c: char, d: char)
    ensures
        subst(s, c, seq![d]) == s.map_values(|x: char| if x == c { d } else { x }),
    decreases s.len(),
{
    if s.len() > 0 {
        lemma_subst_swap(s.drop_last(), c, d);
        assert(s.map_values(|x: char| if x == c { d } else { x }) =~= s.drop_last().map_values(
            |x: char| if x == c { d } else { x },
        ).push(if s.last() == c { d } else { s.last() }));
    }
}

/// Filtering twice keeps what passes both filters.
proof fn lemma_filter_twice(s: Seq<char>, p: spec_fn(char) -> bool, q: spec_fn(char) -> bool)
    ensures
        s.filter(p).filter(q) == s.filter(|x: char| p(x) && q(x)),
    decreases s.len(),
{
    reveal(Seq::filter);
    if s.len() > 0 {
        lemma_filter_twice(s.drop_last(), p, q);
        let a = s.drop_last().filter(p);
        if p(s.last()) {
            assert(a.push(s.last()).drop_last() =~= a);
            assert(a.push(s.last()).last() == s.last());
        }
    }
}

/// The text of a numeral with its spaces and no-break spaces removed.
pub open spec fn unspaced(raw: Seq<char>) -> Seq<char> {
    trim(raw).filter(|c: char| c != ' ' && c != '\u{a0}')
}

/// Spaces and no-break spaces come out of a numeral before anything else.
proof fn lemma_unspaced(raw: Seq<char>)
    ensures
        subst(subst(trim(raw), ' ', Seq::empty()), '\u{a0}', Seq::empty()) == unspaced(raw),
{
    let t = trim(raw);
    lemma_subst_drop(t, ' ');
    lemma_subst_drop(subst(t, ' ', Seq::empty()), '\u{a0}');
    lemma_filter_twice(t, |x: char| x != ' ', |x: char| x != '\u{a0}');
    assert((|x: char| (|x: char| x != ' ')(x) && (|x: char| x != '\u{a0}')(x)) =~= (|c: char| c != ' ' && c != '\u{a0}'));
}

/// Under any numeric format but `numcommadecimal` (and `numwordsen`), a
/// numeral that is neither parenthesized nor a zero dash reads with its
/// spaces, no-break spaces and grouping commas removed: every other
/// character, the decimal point among them, is kept in order.
pub proof fn law_grouping_commas_dropped(raw: Seq<char>, meta: Option<InlineMeta>)
    requires
        !format_is(meta_format(meta), "numcommadecimal"@),
        !format_is(meta_format(meta), "numwordsen"@),
        !(unspaced(raw).len() > 0 && unspaced(raw)[0] == '('),
        !is_dash_text(unspaced(raw)),
    ensures
        normalize_numeric(raw, meta) == trim(raw).filter(|c: char| c != ' ' && c != '\u{a0}' && c != ','),
{
    lemma_unspaced(raw);
    let t = unspaced(raw);
    lemma_subst_drop(t, ',');
    lemma_filter_twice(trim(raw), |c: char| c != ' ' && c != '\u{a0}', |x: char| x != ',');
    assert((|x: char| (|c: char| c != ' ' && c != '\u{a0}')(x) && (|x: char| x != ',')(x)) =~= (|c: char|
        c != ' ' && c != '\u{a0}' && c != ','));
}

/// Under `numcommadecimal`, a numeral that is neither parenthesized nor a
/// zero dash reads with its spaces, no-break spaces and grouping dots
/// removed and its decimal comma written as a point.
pub proof fn law_decimal_comma(raw: Seq<char>, meta: Option<InlineMeta>)
    requires
        format_is(meta_format(meta), "numcommadecimal"@),
        !(unspaced(raw).len() > 0 && unspaced(raw)[0] == '('),
        !is_dash_text(unspaced(raw)),
    ensures
        normalize_numeric(raw, meta) == trim(raw).filter(|c: char| c != ' ' && c != '\u{a0}' && c != '.').map_values(
            |c: char| if c == ',' { '.' } else { c },
        ),
{
    reveal_strlit("numcommadecimal");
    reveal_strlit("numwordsen");
    lemma_unspaced(raw);
    let t = unspaced(raw);
    lemma_subst_drop(t, '.');
    lemma_subst_swap(t.filter(|x: char| x != '.'), ',', '.');
    lemma_filter_twice(trim(raw), |c: char| c != ' ' && c != '\u{a0}', |x: char| x != '.');
    assert((|x: char| (|c: char| c != ' ' && c != '\u{a0}')(x) && (|x: char| x != '.')(x)) =~= (|c: char|
        c != ' ' && c != '\u{a0}' && c != '.'));
    let f = meta_format(meta).unwrap();
    assert(ascii_lower_seq(format_local(f)) == ascii_lower_seq("numcommadecimal"@));
    assert(ascii_lower_seq("numcommadecimal"@).len() == 15);
    assert(ascii_lower_seq("numwordsen"@).len() == 10);
    assert(!format_is(meta_format(meta), "numwordsen"@));
}

/// The boolean and fixed formats give their constant, whatever the text:
/// `booleanfalse` and `fixed-false` give `false`, `booleantrue` and
/// `fixed-true` give `true`, `fixed-empty` and `nocontent` give nothing
/// (the local name compared ignoring ASCII case).
pub proof fn law_constant_formats(raw: Seq<char>, meta: Option<InlineMeta>, f: Seq<char>)
    requires
        meta_format(meta) == Some(f),
    ensures
        ascii_lower_seq(format_local(f)) == "booleanfalse"@ ==> text_transform(raw, meta) == "false"@,
        ascii_lower_seq(format_local(f)) == "fixed-false"@ ==> text_transform(raw, meta) == "false"@,
        ascii_lower_seq(format_local(f)) == "booleantrue"@ ==> text_transform(raw, meta) == "true"@,
        ascii_lower_seq(format_local(f)) == "fixed-true"@ ==> text_transform(raw, meta) == "true"@,
        ascii_lower_seq(format_local(f)) == "fixed-empty"@ ==> text_transform(raw, meta).len() == 0,
        ascii_lower_seq(format_local(f)) == "nocontent"@ ==> text_transform(raw, meta).len() == 0,
{
    reveal_strlit("booleanfalse");
    reveal_strlit("fixed-false");
    reveal_strlit("booleantrue");
    reveal_strlit("fixed-true");
    reveal_strlit("fixed-empty");
    reveal_strlit("nocontent");
    reveal_strlit("dateyearmonthdaycjk");
    reveal_strlit("dateyearmonthcjk");
    reveal_strlit("datemonthdaycjk");
    reveal_strlit("dateerayearmonthdayjp");
    reveal_strlit("false");
    reveal_strlit("true");
    let l = ascii_lower_seq(format_local(f));
    if l == "booleanfalse"@ || l == "fixed-false"@ {
        assert(l.len() == 12 || l.len() == 11);
        assert(l != "dateyearmonthdaycjk"@ && l != "dateyearmonthcjk"@ && l != "datemonthdaycjk"@
            && l != "dateerayearmonthdayjp"@);
        assert(text_transform(raw, meta) == "false"@);
    }
    if l == "booleantrue"@ || l == "fixed-true"@ {
        assert(l.len() == 11 || l.len() == 10);
        assert("booleantrue"@[0] != "fixed-false"@[0]);
        assert(l != "dateyearmonthdaycjk"@ && l != "dateyearmonthcjk"@ && l != "datemonthdaycjk"@
            && l != "dateerayearmonthdayjp"@ && l != "booleanfalse"@ && l != "fixed-false"@);
    }
    if l == "fixed-empty"@ || l == "nocontent"@ {
        assert(l.len() == 11 || l.len() == 9);
        assert("fixed-empty"@[6] != "fixed-false"@[6]);
        assert("fixed-empty"@[0] != "booleantrue"@[0]);
        assert(l != "dateyearmonthdaycjk"@ && l != "dateyearmonthcjk"@ && l != "datemonthdaycjk"@
            && l != "dateerayearmonthdayjp"@ && l != "booleanfalse"@ && l != "fixed-false"@
            && l != "booleantrue"@ && l != "fixed-true"@);
    }
}

} // verus!
