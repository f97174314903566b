//! The closed grammars configuration values must parse against before they
//! reach a stylesheet: colors, CSS numbers and components, family names and
//! lists, theme ids, and font file names. Each value is re-emitted from its
//! parse, never copied.
use crate::chars::{
    ascii_lower, chars_of, debug_char, debug_str, is_ascii_alnum, is_ascii_alpha, is_ascii_digit,
    is_ascii_hex, char_debug, str_debug, string_of, alnum,
};
use crate::markdown::{eq_ignore_case, eq_ignore_case_v};
use crate::text::{index_of, index_of_v, push_all, push_str, slice_of, trim, trim_v, views};
use vstd::prelude::*;

verus! {

// ---------------------------------------------------------------------------
// Small text helpers.
// ---------------------------------------------------------------------------

/// `s` with ASCII letters lower-cased.
pub open spec fn ascii_lower_text(s: Seq<char>) -> Seq<char> {
    s.map_values(|c: char| ascii_lower(c))
}

/// Every char of `s` is an ASCII digit.
pub open spec fn all_digits(s: Seq<char>) -> bool {
    forall|i: int| 0 <= i < s.len() ==> is_ascii_digit(#[trigger] s[i])
}

/// Every char of `s` is an ASCII hex digit.
pub open spec fn all_hex(s: Seq<char>) -> bool {
    forall|i: int| 0 <= i < s.len() ==> is_ascii_hex(#[trigger] s[i])
}

/// `` `at` `` as messages quote a configuration path.
pub open spec fn quoted_path(at: Seq<char>) -> Seq<char> {
    seq!['`'] + at + seq!['`']
}

fn ascii_lower_v(s: &[char]) -> (r: Vec<char>)
    ensures
        r@ == ascii_lower_text(s@),
{
    let mut out: Vec<char> = Vec::new();
    let mut i: usize = 0;
    while i < s.len()
        invariant
            i <= s@.len(),
            out@ == ascii_lower_text(s@.take(i as int)),
        decreases s.len() - i,
    {
        out.push(crate::chars::to_ascii_lower(s[i]));
        i += 1;
        assert(out@ =~= ascii_lower_text(s@.take(i as int)));
    }
    assert(s@.take(s@.len() as int) =~= s@);
    out
}

fn all_digits_v(s: &[char]) -> (r: bool)
    ensures
        r == all_digits(s@),
{
    let mut i: usize = 0;
    while i < s.len()
        invariant
            i <= s@.len(),
            forall|k: int| 0 <= k < i ==> is_ascii_digit(#[trigger] s@[k]),
        decreases s.len() - i,
    {
        if !crate::chars::ascii_digit(s[i]) {
            assert(!is_ascii_digit(s@[i as int]));
            return false;
        }
        i += 1;
    }
    true
}

fn all_hex_v(s: &[char]) -> (r: bool)
    ensures
        r == all_hex(s@),
{
    let mut i: usize = 0;
    while i < s.len()
        invariant
            i <= s@.len(),
            forall|k: int| 0 <= k < i ==> is_ascii_hex(#[trigger] s@[k]),
        decreases s.len() - i,
    {
        if !crate::chars::ascii_hex(s[i]) {
            assert(!is_ascii_hex(s@[i as int]));
            return false;
        }
        i += 1;
    }
    true
}

fn quoted_path_v(at: &str) -> (r: Vec<char>)
    ensures
        r@ == quoted_path(at@),
{
    let mut v: Vec<char> = vec!['`'];
    push_str(&mut v, at);
    v.push('`');
    assert(v@ =~= quoted_path(at@));
    v
}

fn lit_eq_ignore_case(s: &[char], lit: &str) -> (r: bool)
    ensures
        r == eq_ignore_case(s@, lit@),
{
    let l = chars_of(lit);
    eq_ignore_case_v(s, l.as_slice())
}

// ---------------------------------------------------------------------------
// CSS numbers and color components.
// ---------------------------------------------------------------------------

/// A CSS number as the color grammar accepts it: an optional sign, then
/// digits with at most one decimal point and at least one digit after it
/// (no exponent).
pub open spec fn css_number(text: Seq<char>) -> bool {
    let digits = if text.len() > 0 && (text[0] == '+' || text[0] == '-') {
        text.drop_first()
    } else {
        text
    };
    match index_of(digits, '.') {
        Some(d) => digits.skip(d + 1).len() > 0 && all_digits(digits.take(d)) && all_digits(
            digits.skip(d + 1),
        ),
        None => digits.len() > 0 && all_digits(digits),
    }
}

/// Whether `text` is a CSS number (see [`css_number`]).
pub fn is_css_number(text: &[char]) -> (r: bool)
    ensures
        r == css_number(text@),
{
    let digits = if text.len() > 0 && (text[0] == '+' || text[0] == '-') {
        let d = slice_of(text, 1, text.len());
        assert(d@ =~= text@.drop_first());
        d
    } else {
        let d = slice_of(text, 0, text.len());
        assert(d@ =~= text@);
        d
    };
    match index_of_v(digits.as_slice(), '.') {
        Some(d) => {
            let whole = slice_of(digits.as_slice(), 0, d);
            let fraction = slice_of(digits.as_slice(), d + 1, digits.len());
            assert(whole@ =~= digits@.take(d as int));
            assert(fraction@ =~= digits@.skip(d + 1));
            fraction.len() > 0 && all_digits_v(whole.as_slice()) && all_digits_v(fraction.as_slice())
        },
        None => digits.len() > 0 && all_digits_v(digits.as_slice()),
    }
}

/// Where a component's unit starts: at its first ASCII letter or `%`.
pub open spec fn unit_start(t: Seq<char>, i: int) -> int
    decreases t.len() - i,
{
    if i < 0 || i >= t.len() || is_ascii_alpha(t[i]) || t[i] == '%' {
        i
    } else {
        unit_start(t, i + 1)
    }
}

pub proof fn lemma_unit_start(t: Seq<char>, i: int)
    requires
        0 <= i <= t.len(),
    ensures
        i <= unit_start(t, i) <= t.len(),
    decreases t.len() - i,
{
    if i < t.len() && !(is_ascii_alpha(t[i]) || t[i] == '%') {
        lemma_unit_start(t, i + 1);
    }
}

/// The units a component may carry: none, `%`, or an angle unit (any case).
pub open spec fn unit_ok(u: Seq<char>) -> bool {
    ||| u.len() == 0
    ||| u == seq!['%']
    ||| eq_ignore_case(u, seq!['d', 'e', 'g'])
    ||| eq_ignore_case(u, seq!['g', 'r', 'a', 'd'])
    ||| eq_ignore_case(u, seq!['r', 'a', 'd'])
    ||| eq_ignore_case(u, seq!['t', 'u', 'r', 'n'])
}

/// A color component: `none` (any case), or a CSS number with an accepted
/// unit.
pub open spec fn component_ok(t: Seq<char>) -> bool {
    let k = unit_start(t, 0);
    eq_ignore_case(t, seq!['n', 'o', 'n', 'e']) || (unit_ok(t.skip(k)) && css_number(t.take(k)))
}

/// Whether a token is a color component (see [`component_ok`]).
pub fn color_component(token: &[char]) -> (r: bool)
    ensures
        r == component_ok(token@),
{
    if lit_eq_ignore_case(token, "none") {
        proof {
            reveal_strlit("none");
        }
        return true;
    }
    proof {
        reveal_strlit("none");
        lemma_unit_start(token@, 0);
    }
    let mut k: usize = 0;
    while k < token.len() && !(crate::chars::ascii_alpha(token[k]) || token[k] == '%')
        invariant
            k <= token@.len(),
            unit_start(token@, 0) == unit_start(token@, k as int),
        decreases token.len() - k,
    {
        k += 1;
    }
    let number = slice_of(token, 0, k);
    let unit = slice_of(token, k, token.len());
    assert(number@ =~= token@.take(k as int));
    assert(unit@ =~= token@.skip(k as int));
    let pct = vec!['%'];
    let unit_known = unit.len() == 0 || crate::markdown::eq_chars(unit.as_slice(), pct.as_slice())
        || lit_eq_ignore_case(unit.as_slice(), "deg") || lit_eq_ignore_case(unit.as_slice(), "grad")
        || lit_eq_ignore_case(unit.as_slice(), "rad") || lit_eq_ignore_case(unit.as_slice(), "turn");
    proof {
        reveal_strlit("deg");
        reveal_strlit("grad");
        reveal_strlit("rad");
        reveal_strlit("turn");
        assert(pct@ =~= seq!['%']);
        assert("deg"@ =~= seq!['d', 'e', 'g']);
        assert("grad"@ =~= seq!['g', 'r', 'a', 'd']);
        assert("rad"@ =~= seq!['r', 'a', 'd']);
        assert("turn"@ =~= seq!['t', 'u', 'r', 'n']);
    }
    unit_known && is_css_number(number.as_slice())
}


// ---------------------------------------------------------------------------
// Colors.
// ---------------------------------------------------------------------------

/// A validated CSS color, stored as the CSS text it emits.
#[derive(Clone, Debug, PartialEq, Eq)]
pub struct Color(String);

impl Color {
    pub closed spec fn css(&self) -> Seq<char> {
        self.0@
    }

    /// The CSS text, e.g. `#2e3440` or `oklch(0.7 0.1 250 / 50%)`.
    pub fn as_css(&self) -> (r: &str)
        ensures
            r@ == self.css(),
    {
        self.0.as_str()
    }
}

/// The canonical name of a color function `n` names (any case).
pub open spec fn color_function(n: Seq<char>) -> Option<Seq<char>> {
    if eq_ignore_case(n, "rgb"@) {
        Some("rgb"@)
    } else if eq_ignore_case(n, "rgba"@) {
        Some("rgba"@)
    } else if eq_ignore_case(n, "hsl"@) {
        Some("hsl"@)
    } else if eq_ignore_case(n, "hsla"@) {
        Some("hsla"@)
    } else if eq_ignore_case(n, "oklch"@) {
        Some("oklch"@)
    } else if eq_ignore_case(n, "oklab"@) {
        Some("oklab"@)
    } else if eq_ignore_case(n, "lab"@) {
        Some("lab"@)
    } else if eq_ignore_case(n, "lch"@) {
        Some("lch"@)
    } else {
        None
    }
}

/// The tokenizer state over a function body: the tokens so far (each with
/// whether a `/` introduced it), the start of the token being read, and the
/// separator bookkeeping.
pub ghost struct Tok {
    pub tokens: Seq<(Seq<char>, bool)>,
    pub start: Option<int>,
    pub after_slash: bool,
    pub filled: bool,
    pub commas: bool,
    pub empty_arg: bool,
}

pub open spec fn tok_init() -> Tok {
    Tok { tokens: Seq::empty(), start: None, after_slash: false, filled: false, commas: false, empty_arg: false }
}

/// One char of the body: spaces, commas and slashes end a token; a comma
/// or slash also starts a new argument, which must not be empty.
pub open spec fn tok_step(body: Seq<char>, st: Tok, i: int) -> Tok {
    let c = body[i];
    if c == ' ' || c == ',' || c == '/' {
        let st1 = match st.start {
            Some(from) => Tok {
                tokens: st.tokens.push((body.subrange(from, i), st.after_slash)),
                start: None,
                after_slash: false,
                filled: true,
                commas: st.commas,
                empty_arg: st.empty_arg,
            },
            None => st,
        };
        if c != ' ' {
            Tok {
                tokens: st1.tokens,
                start: st1.start,
                after_slash: c == '/',
                filled: false,
                commas: st1.commas || c == ',',
                empty_arg: st1.empty_arg || !st1.filled,
            }
        } else {
            st1
        }
    } else if st.start is None {
        Tok {
            tokens: st.tokens,
            start: Some(i),
            after_slash: st.after_slash,
            filled: st.filled,
            commas: st.commas,
            empty_arg: st.empty_arg,
        }
    } else {
        st
    }
}

pub open spec fn tok_scan(body: Seq<char>, n: int) -> Tok
    decreases n,
{
    if n <= 0 {
        tok_init()
    } else {
        tok_step(body, tok_scan(body, n - 1), n - 1)
    }
}

/// The tokenizer state after the whole body, the last token closed.
pub open spec fn tokenized(body: Seq<char>) -> Tok {
    let st = tok_scan(body, body.len() as int);
    match st.start {
        Some(from) => Tok {
            tokens: st.tokens.push((body.skip(from), st.after_slash)),
            start: None,
            after_slash: st.after_slash,
            filled: true,
            commas: st.commas,
            empty_arg: st.empty_arg,
        },
        None => st,
    }
}

/// The index of the first token that is not a color component, if any.
pub open spec fn first_bad(toks: Seq<(Seq<char>, bool)>, i: int) -> Option<int>
    decreases toks.len() - i,
{
    if i < 0 || i >= toks.len() {
        None
    } else if !component_ok(toks[i].0) {
        Some(i)
    } else {
        first_bad(toks, i + 1)
    }
}

/// The separator before a token: `, ` in the legacy comma form, ` / `
/// before an alpha component, a space otherwise.
pub open spec fn separator_text(commas: bool, after_slash: bool) -> Seq<char> {
    if commas {
        seq![',', ' ']
    } else if after_slash {
        seq![' ', '/', ' ']
    } else {
        seq![' ']
    }
}

/// The tokens re-emitted, lower-cased, with their separators.
pub open spec fn emit_tokens(toks: Seq<(Seq<char>, bool)>, commas: bool) -> Seq<char>
    decreases toks.len(),
{
    if toks.len() == 0 {
        Seq::empty()
    } else if toks.len() == 1 {
        ascii_lower_text(toks[0].0)
    } else {
        emit_tokens(toks.drop_last(), commas) + separator_text(commas, toks.last().1) + ascii_lower_text(
            toks.last().0,
        )
    }
}

pub open spec fn has_paren(s: Seq<char>) -> bool {
    exists|i: int| 0 <= i < s.len() && (s[i] == '(' || s[i] == ')')
}

/// The parse of a color value at configuration path `at`: a hex color (its
/// digits lower-cased), a call of a color function over components
/// (re-emitted lower-cased with normalized separators), or `transparent`;
/// otherwise the error message.
pub open spec fn color_parse(raw: Seq<char>, at: Seq<char>) -> Result<Seq<char>, Seq<char>> {
    let t = trim(raw);
    let head = quoted_path(at) + ": "@ + str_debug(t);
    if t.len() > 0 && t[0] == '#' {
        let hex = t.drop_first();
        if !(hex.len() == 3 || hex.len() == 4 || hex.len() == 6 || hex.len() == 8) || !all_hex(hex) {
            Err(head + " is not a hex color; write #rgb, #rgba, #rrggbb, or #rrggbbaa"@)
        } else {
            Ok(seq!['#'] + ascii_lower_text(hex))
        }
    } else {
        match index_of(t, '(') {
            Some(open) => function_parse_with(t, open, head),
            None => if eq_ignore_case(t, "transparent"@) {
                Ok("transparent"@)
            } else {
                Err(head + " is not a color this grammar knows; write a hex color (#rgb, #rrggbb), `transparent`, or a function call such as `oklch(0.7 0.1 250)` or `rgb(46, 52, 64)`"@)
            },
        }
    }
}

/// A message as the `Invalid` kind of configuration error.
pub open spec fn message_of(r: Result<Color, crate::config::ConfigErrorKind>) -> Result<Seq<char>, Seq<char>> {
    match r {
        Ok(c) => Ok(c.css()),
        Err(crate::config::ConfigErrorKind::Invalid(m)) => Err(m@),
        Err(_) => Err(Seq::empty()),
    }
}

fn canonical_function(n: &[char]) -> (r: Option<&'static str>)
    ensures
        match r {
            Some(x) => color_function(n@) == Some(x@),
            None => color_function(n@) is None,
        },
{
    if lit_eq_ignore_case(n, "rgb") {
        Some("rgb")
    } else if lit_eq_ignore_case(n, "rgba") {
        Some("rgba")
    } else if lit_eq_ignore_case(n, "hsl") {
        Some("hsl")
    } else if lit_eq_ignore_case(n, "hsla") {
        Some("hsla")
    } else if lit_eq_ignore_case(n, "oklch") {
        Some("oklch")
    } else if lit_eq_ignore_case(n, "oklab") {
        Some("oklab")
    } else if lit_eq_ignore_case(n, "lab") {
        Some("lab")
    } else if lit_eq_ignore_case(n, "lch") {
        Some("lch")
    } else {
        None
    }
}

fn invalid_msg(v: Vec<char>) -> (r: crate::config::ConfigErrorKind)
    ensures
        r matches crate::config::ConfigErrorKind::Invalid(m) && m@ == v@,
{
    crate::config::ConfigErrorKind::Invalid(string_of(v.as_slice()))
}

fn has_paren_v(s: &[char]) -> (r: bool)
    ensures
        r == has_paren(s@),
{
    let mut i: usize = 0;
    while i < s.len()
        invariant
            i <= s@.len(),
            forall|k: int| 0 <= k < i ==> !(#[trigger] s@[k] == '(' || s@[k] == ')'),
        decreases s.len() - i,
    {
        if s[i] == '(' || s[i] == ')' {
            return true;
        }
        i += 1;
    }
    false
}

pub open spec fn tok_views(v: Seq<(Vec<char>, bool)>) -> Seq<(Seq<char>, bool)> {
    v.map_values(|p: (Vec<char>, bool)| (p.0@, p.1))
}

pub open spec fn opt_int(o: Option<usize>) -> Option<int> {
    match o {
        Some(x) => Some(x as int),
        None => None,
    }
}

/// Splits a function body into components (see [`tokenized`]).
fn tokenize_v(body: &[char]) -> (r: (Vec<(Vec<char>, bool)>, bool, bool, bool))
    ensures
        tok_views(r.0@) == tokenized(body@).tokens,
        r.1 == tokenized(body@).commas,
        r.2 == tokenized(body@).filled,
        r.3 == tokenized(body@).empty_arg,
{
    let mut tokens: Vec<(Vec<char>, bool)> = Vec::new();
    let mut start: Option<usize> = None;
    let mut after_slash = false;
    let mut filled = false;
    let mut commas = false;
    let mut empty_argument = false;
    let mut i: usize = 0;
    while i < body.len()
        invariant
            i <= body@.len(),
            ({
                let st = tok_scan(body@, i as int);
                &&& tok_views(tokens@) == st.tokens
                &&& opt_int(start) == st.start
                &&& after_slash == st.after_slash
                &&& filled == st.filled
                &&& commas == st.commas
                &&& empty_argument == st.empty_arg
            }),
            start matches Some(f) ==> f < i,
        decreases body.len() - i,
    {
        let c = body[i];
        if c == ' ' || c == ',' || c == '/' {
            match start {
                Some(from) => {
                    let tok = slice_of(body, from, i);
                    let ghost before = tok_views(tokens@);
                    tokens.push((tok, after_slash));
                    proof {
                        assert(tok_views(tokens@) =~= before.push((body@.subrange(from as int, i as int), tok_views(tokens@).last().1)));
                    }
                    start = None;
                    after_slash = false;
                    filled = true;
                },
                None => {},
            }
            if c != ' ' {
                empty_argument = empty_argument || !filled;
                commas = commas || c == ',';
                after_slash = c == '/';
                filled = false;
            }
        } else if start.is_none() {
            start = Some(i);
        }
        i += 1;
    }
    match start {
        Some(from) => {
            let tok = slice_of(body, from, body.len());
            let ghost before = tok_views(tokens@);
            tokens.push((tok, after_slash));
            proof {
                assert(body@.subrange(from as int, body@.len() as int) =~= body@.skip(from as int));
                assert(tok_views(tokens@) =~= before.push((body@.skip(from as int), after_slash)));
            }
            filled = true;
        },
        None => {},
    }
    (tokens, commas, filled, empty_argument)
}

impl Color {
    /// Parses one color at configuration path `at` (see [`color_parse`]); a
    /// value outside the grammar is an `Invalid` error with the message.
    pub fn parse(raw: &str, at: &str) -> (r: Result<Color, crate::config::ConfigErrorKind>)
        ensures
            message_of(r) == color_parse(raw@, at@),
            r matches Err(e) ==> e is Invalid,
    {
        let rv = chars_of(raw);
        let t = trim_v(rv.as_slice());
        let ts = string_of(t.as_slice());
        let mut head = quoted_path_v(at);
        push_str(&mut head, ": ");
        let dbg = debug_str(ts.as_str());
        push_str(&mut head, dbg.as_str());
        if t.len() > 0 && t[0] == '#' {
            let hex = slice_of(t.as_slice(), 1, t.len());
            assert(hex@ =~= t@.drop_first());
            let n = hex.len();
            if !(n == 3 || n == 4 || n == 6 || n == 8) || !all_hex_v(hex.as_slice()) {
                let mut m = head;
                push_str(&mut m, " is not a hex color; write #rgb, #rgba, #rrggbb, or #rrggbbaa");
                return Err(invalid_msg(m));
            }
            let mut css: Vec<char> = vec!['#'];
            let low = ascii_lower_v(hex.as_slice());
            push_all(&mut css, low.as_slice());
            assert(css@ =~= seq!['#'] + ascii_lower_text(hex@));
            return Ok(Color(string_of(css.as_slice())));
        }
        match index_of_v(t.as_slice(), '(') {
            Some(open) => Self::parse_function(&t, open, head),
            None => {
                if lit_eq_ignore_case(t.as_slice(), "transparent") {
                    Ok(Color("transparent".to_owned()))
                } else {
                    let mut m = head;
                    push_str(&mut m, " is not a color this grammar knows; write a hex color (#rgb, #rrggbb), `transparent`, or a function call such as `oklch(0.7 0.1 250)` or `rgb(46, 52, 64)`");
                    Err(invalid_msg(m))
                }
            },
        }
    }

    fn parse_function(t: &Vec<char>, open: usize, head: Vec<char>) -> (r: Result<Color, crate::config::ConfigErrorKind>)
        requires
            open < t@.len(),
        ensures
            message_of(r) == function_parse_with(t@, open as int, head@),
            r matches Err(e) ==> e is Invalid,
    {
        assert(t@.len() == t.len());
        let name_text = slice_of(t.as_slice(), 0, open);
        assert(name_text@ =~= t@.take(open as int));
        let name = match canonical_function(name_text.as_slice()) {
            Some(name) => name,
            None => {
                let mut m = head;
                push_str(&mut m, " calls `");
                push_all(&mut m, name_text.as_slice());
                push_str(&mut m, "`; the color functions are: rgb, rgba, hsl, hsla, oklch, oklab, lab, lch");
                return Err(invalid_msg(m));
            },
        };
        let after = slice_of(t.as_slice(), open + 1, t.len());
        assert(after@ =~= t@.skip(open + 1));
        if !(after.len() > 0 && after[after.len() - 1] == ')') {
            let mut m = head;
            push_str(&mut m, " does not end at its closing `)`");
            return Err(invalid_msg(m));
        }
        let body = slice_of(after.as_slice(), 0, after.len() - 1);
        assert(body@ =~= after@.drop_last());
        if has_paren_v(body.as_slice()) {
            let mut m = head;
            push_str(&mut m, " nests parentheses; color components are numbers, percentages, angles, and `none`");
            return Err(invalid_msg(m));
        }
        let (tokens, commas, filled, empty_argument) = tokenize_v(body.as_slice());
        if tokens.len() == 0 {
            let mut m = head;
            push_str(&mut m, " has no components");
            return Err(invalid_msg(m));
        }
        if empty_argument || !filled {
            let mut m = head;
            push_str(&mut m, " has an empty component (check its commas and slashes)");
            return Err(invalid_msg(m));
        }
        let ghost tv = tok_views(tokens@);
        let mut css: Vec<char> = Vec::new();
        push_str(&mut css, name);
        css.push('(');
        let ghost prefix = css@;
        assert(prefix =~= name@ + seq!['(']);
        let mut i: usize = 0;
        while i < tokens.len()
            invariant
                i <= tokens@.len(),
                tv == tok_views(tokens@),
                tv.len() > 0,
                open < t@.len(),
                color_function(t@.take(open as int)) == Some(name@),
                body@ == t@.skip(open + 1).drop_last(),
                t@.skip(open + 1).len() > 0 && t@.skip(open + 1).last() == ')',
                !has_paren(body@),
                tv == tokenized(body@).tokens,
                commas == tokenized(body@).commas,
                !tokenized(body@).empty_arg && tokenized(body@).filled,
                prefix == name@ + seq!['('],
                first_bad(tv, 0) == first_bad(tv, i as int),
                css@ == prefix + emit_tokens(tv.take(i as int), commas),
            decreases tokens.len() - i,
        {
            proof {
                assert(tv.take(i + 1).drop_last() =~= tv.take(i as int));
                assert(tv.take(i + 1).last() == tv[i as int]);
            }
            let tok = &tokens[i].0;
            assert(tv[i as int].0 == tok@);
            if !color_component(tok.as_slice()) {
                assert(first_bad(tv, i as int) == Some(i as int));
                let mut m = head;
                push_str(&mut m, " has the component ");
                let ts = string_of(tok.as_slice());
                let d = debug_str(ts.as_str());
                push_str(&mut m, d.as_str());
                push_str(&mut m, "; components are `none`, numbers, percentages, and angles (deg, grad, rad, turn)");
                return Err(invalid_msg(m));
            }
            if i > 0 {
                if commas {
                    css.push(',');
                    css.push(' ');
                } else if tokens[i].1 {
                    css.push(' ');
                    css.push('/');
                    css.push(' ');
                } else {
                    css.push(' ');
                }
            }
            let low = ascii_lower_v(tok.as_slice());
            push_all(&mut css, low.as_slice());
            proof {
                if i == 0 {
                    assert(tv.take(1) =~= seq![tv[0]]);
                }
                assert(css@ =~= prefix + emit_tokens(tv.take(i + 1), commas));
            }
            i += 1;
        }
        css.push(')');
        proof {
            assert(tv.take(tv.len() as int) =~= tv);
            assert(first_bad(tv, 0) is None);
            assert(css@ == name@ + seq!['('] + emit_tokens(tv, commas) + seq![')']);
            let tk = tokenized(body@);
            assert(function_parse_with(t@, open as int, head@) == Ok::<Seq<char>, Seq<char>>(name@ + seq!['('] + emit_tokens(tk.tokens, tk.commas) + seq![')']));
        }
        let c = Color(string_of(css.as_slice()));
        assert(c.css() == css@);
        Ok(c)
    }
}

/// [`function_parse`] with the message head given.
pub open spec fn function_parse_with(t: Seq<char>, open: int, head: Seq<char>) -> Result<Seq<char>, Seq<char>> {
    match color_function(t.take(open)) {
        None => Err(head + " calls `"@ + t.take(open) + "`; the color functions are: rgb, rgba, hsl, hsla, oklch, oklab, lab, lch"@),
        Some(name) => {
            let after = t.skip(open + 1);
            if !(after.len() > 0 && after.last() == ')') {
                Err(head + " does not end at its closing `)`"@)
            } else {
                let body = after.drop_last();
                if has_paren(body) {
                    Err(head + " nests parentheses; color components are numbers, percentages, angles, and `none`"@)
                } else {
                    let tk = tokenized(body);
                    if tk.tokens.len() == 0 {
                        Err(head + " has no components"@)
                    } else if tk.empty_arg || !tk.filled {
                        Err(head + " has an empty component (check its commas and slashes)"@)
                    } else {
                        match first_bad(tk.tokens, 0) {
                            Some(k) => Err(head + " has the component "@ + str_debug(tk.tokens[k].0) + "; components are `none`, numbers, percentages, and angles (deg, grad, rad, turn)"@),
                            None => Ok(name + seq!['('] + emit_tokens(tk.tokens, tk.commas) + seq![')']),
                        }
                    }
                }
            }
        },
    }
}


/// A char a color component may hold: an ASCII letter or digit, `%`, `.`,
/// or a sign.
pub open spec fn component_char(c: char) -> bool {
    is_ascii_alnum(c) || c == '%' || c == '.' || c == '+' || c == '-'
}

/// A char of a function body as emitted: a component char or a separator.
pub open spec fn body_char(c: char) -> bool {
    component_char(c) || c == ',' || c == ' ' || c == '/'
}

/// The color functions, by their canonical names.
pub open spec fn color_name(n: Seq<char>) -> bool {
    ||| n == "rgb"@
    ||| n == "rgba"@
    ||| n == "hsl"@
    ||| n == "hsla"@
    ||| n == "oklch"@
    ||| n == "oklab"@
    ||| n == "lab"@
    ||| n == "lch"@
}

/// The shapes a color's CSS text takes: `#` and hex digits, `transparent`,
/// or one call of a color function whose body holds only component chars
/// and separators.
pub open spec fn color_css_shape(css: Seq<char>) -> bool {
    ||| (css.len() > 0 && css[0] == '#' && all_hex(css.drop_first()))
    ||| css == "transparent"@
    ||| exists|k: int|
        0 < k && k + 1 < css.len() && color_name(#[trigger] css.take(k)) && css[k] == '(' && css.last() == ')'
            && forall|i: int| k < i < css.len() - 1 ==> body_char(#[trigger] css[i])
}

pub proof fn lemma_number_chars(x: Seq<char>)
    requires
        css_number(x),
    ensures
        forall|i: int| 0 <= i < x.len() ==> component_char(#[trigger] x[i]),
{
    let signed = x.len() > 0 && (x[0] == '+' || x[0] == '-');
    let digits = if signed { x.drop_first() } else { x };
    let off: int = if signed { 1 } else { 0 };
    match index_of(digits, '.') {
        Some(d) => {
            crate::text::lemma_next_char(digits, '.', 0);
            assert forall|i: int| 0 <= i < x.len() implies component_char(#[trigger] x[i]) by {
                if i >= off {
                    let j = i - off;
                    assert(x[i] == digits[j]);
                    if j < d {
                        assert(digits.take(d)[j] == digits[j]);
                    } else if j > d {
                        assert(digits.skip(d + 1)[j - d - 1] == digits[j]);
                    }
                }
            }
        },
        None => {
            assert forall|i: int| 0 <= i < x.len() implies component_char(#[trigger] x[i]) by {
                if i >= off {
                    assert(x[i] == digits[i - off]);
                }
            }
        },
    }
}

/// The chars of a text equal, ignoring ASCII case, to a text of ASCII
/// letters are ASCII letters.
pub proof fn lemma_letters_ignoring_case(t: Seq<char>, w: Seq<char>)
    requires
        eq_ignore_case(t, w),
        forall|i: int| 0 <= i < w.len() ==> crate::chars::is_ascii_lower(#[trigger] w[i]),
    ensures
        forall|i: int| 0 <= i < t.len() ==> is_ascii_alpha(#[trigger] t[i]),
{
    assert forall|i: int| 0 <= i < t.len() implies is_ascii_alpha(#[trigger] t[i]) by {
        assert(ascii_lower(t[i]) == ascii_lower(w[i]));
        assert(crate::chars::is_ascii_lower(w[i]));
    }
}

pub proof fn lemma_component_chars(t: Seq<char>)
    requires
        component_ok(t),
    ensures
        forall|i: int| 0 <= i < t.len() ==> component_char(#[trigger] t[i]),
{
    if eq_ignore_case(t, seq!['n', 'o', 'n', 'e']) {
        lemma_letters_ignoring_case(t, seq!['n', 'o', 'n', 'e']);
    } else {
        let k = unit_start(t, 0);
        lemma_unit_start(t, 0);
        lemma_number_chars(t.take(k));
        let u = t.skip(k);
        if u.len() > 0 && u != seq!['%'] {
            if eq_ignore_case(u, seq!['d', 'e', 'g']) {
                lemma_letters_ignoring_case(u, seq!['d', 'e', 'g']);
            } else if eq_ignore_case(u, seq!['g', 'r', 'a', 'd']) {
                lemma_letters_ignoring_case(u, seq!['g', 'r', 'a', 'd']);
            } else if eq_ignore_case(u, seq!['r', 'a', 'd']) {
                lemma_letters_ignoring_case(u, seq!['r', 'a', 'd']);
            } else {
                lemma_letters_ignoring_case(u, seq!['t', 'u', 'r', 'n']);
            }
        }
        assert forall|i: int| 0 <= i < t.len() implies component_char(#[trigger] t[i]) by {
            if i < k {
                assert(t.take(k)[i] == t[i]);
            } else {
                assert(u[i - k] == t[i]);
                if u == seq!['%'] {
                    assert(u[0] == '%');
                }
            }
        }
    }
}

pub proof fn lemma_first_bad_none(toks: Seq<(Seq<char>, bool)>, i: int)
    requires
        0 <= i,
        first_bad(toks, i) is None,
    ensures
        forall|j: int| i <= j < toks.len() ==> component_ok(#[trigger] toks[j].0),
    decreases toks.len() - i,
{
    if i < toks.len() {
        lemma_first_bad_none(toks, i + 1);
    }
}

pub proof fn lemma_emit_chars(toks: Seq<(Seq<char>, bool)>, commas: bool)
    requires
        forall|j: int| 0 <= j < toks.len() ==> component_ok(#[trigger] toks[j].0),
    ensures
        forall|i: int| 0 <= i < emit_tokens(toks, commas).len() ==> body_char(#[trigger] emit_tokens(toks, commas)[i]),
    decreases toks.len(),
{
    if toks.len() > 0 {
        let last = toks.last().0;
        lemma_component_chars(last);
        let low = ascii_lower_text(last);
        assert forall|i: int| 0 <= i < low.len() implies body_char(#[trigger] low[i]) by {
            assert(component_char(last[i]));
        }
        if toks.len() > 1 {
            let front = toks.drop_last();
            assert forall|j: int| 0 <= j < front.len() implies component_ok(#[trigger] front[j].0) by {
                assert(front[j] == toks[j]);
            }
            lemma_emit_chars(front, commas);
            let a = emit_tokens(front, commas);
            let sep = separator_text(commas, toks.last().1);
            let e = a + sep + low;
            assert(emit_tokens(toks, commas) == e);
            assert forall|i: int| 0 <= i < e.len() implies body_char(#[trigger] e[i]) by {
                if i < a.len() {
                    assert(e[i] == a[i]);
                } else if i < a.len() + sep.len() {
                    assert(e[i] == sep[i - a.len()]);
                } else {
                    assert(e[i] == low[i - a.len() - sep.len()]);
                }
            }
        } else {
            assert(toks[0].0 == last);
        }
    }
}

/// A parsed color cannot break out of its declaration: its CSS text is a
/// hex color, `transparent`, or one call of a known color function whose
/// body holds only letters, digits, `%`, `.`, signs, and separators, so it
/// never carries a `var()`, a nested call, a `url()`, a quote, a brace, or a
/// `;`.
pub proof fn lemma_color_css_safe(raw: Seq<char>, at: Seq<char>)
    ensures
        color_parse(raw, at) matches Ok(css) ==> color_css_shape(css),
{
    let t = trim(raw);
    let head = quoted_path(at) + ": "@ + str_debug(t);
    if t.len() > 0 && t[0] == '#' {
        let hex = t.drop_first();
        let low = ascii_lower_text(hex);
        let css = seq!['#'] + low;
        if all_hex(hex) {
            assert(css.drop_first() =~= low);
            assert forall|i: int| 0 <= i < low.len() implies is_ascii_hex(#[trigger] low[i]) by {
                assert(is_ascii_hex(hex[i]));
            }
        }
    } else {
        match index_of(t, '(') {
            Some(open) => {
                match color_function(t.take(open)) {
                    None => {},
                    Some(name) => {
                        let after = t.skip(open + 1);
                        if after.len() > 0 && after.last() == ')' {
                            let body = after.drop_last();
                            let tk = tokenized(body);
                            if first_bad(tk.tokens, 0) is None {
                                lemma_first_bad_none(tk.tokens, 0);
                                lemma_emit_chars(tk.tokens, tk.commas);
                                let inner = emit_tokens(tk.tokens, tk.commas);
                                let css = name + seq!['('] + inner + seq![')'];
                                let k = name.len() as int;
                                assert(color_name(name));
                                assert(css.take(k) =~= name);
                                assert forall|i: int| k < i < css.len() - 1 implies body_char(#[trigger] css[i]) by {
                                    assert(css[i] == inner[i - k - 1]);
                                }
                                assert(k > 0) by {
                                    reveal_strlit("rgb");
                                    reveal_strlit("rgba");
                                    reveal_strlit("hsl");
                                    reveal_strlit("hsla");
                                    reveal_strlit("oklch");
                                    reveal_strlit("oklab");
                                    reveal_strlit("lab");
                                    reveal_strlit("lch");
                                }
                                assert(css[k] == '(');
                            }
                        }
                    },
                }
            },
            None => {},
        }
    }
}

// ---------------------------------------------------------------------------
// Family names and lists.
// ---------------------------------------------------------------------------

/// A char a family name may hold: a letter or digit in any script, a
/// space, or one of `-`, `_`, `.`, `+`.
pub open spec fn family_char(c: char) -> bool {
    alnum(c) || c == ' ' || c == '-' || c == '_' || c == '.' || c == '+'
}

/// The first index at or after `i` whose char fails `family_char`.
pub open spec fn first_non_family(s: Seq<char>, i: int) -> Option<int>
    decreases s.len() - i,
{
    if i < 0 || i >= s.len() {
        None
    } else if !family_char(s[i]) {
        Some(i)
    } else {
        first_non_family(s, i + 1)
    }
}

/// The check of a family name at configuration path `at`: `None` when every
/// char may appear in a name, else the message naming the first bad char.
pub open spec fn family_name_error(name: Seq<char>, at: Seq<char>) -> Option<Seq<char>> {
    match first_non_family(name, 0) {
        Some(k) => Some(quoted_path(at) + ": family name "@ + str_debug(name) + " contains "@ + char_debug(name[k]) + "; names may use letters, digits, spaces, `-`, `_`, `.`, and `+`"@),
        None => None,
    }
}

/// Validates a family name: letters and digits in any script, spaces, and
/// `-`, `_`, `.`, `+`.
pub fn family_name<'a>(name: &'a str, at: &str) -> (r: Result<&'a str, crate::config::ConfigErrorKind>)
    ensures
        match r {
            Ok(n) => n@ == name@ && family_name_error(name@, at@) is None,
            Err(e) => e matches crate::config::ConfigErrorKind::Invalid(m) && family_name_error(name@, at@) == Some(m@),
        },
{
    let v = chars_of(name);
    let mut i: usize = 0;
    while i < v.len()
        invariant
            i <= v@.len(),
            v@ == name@,
            first_non_family(v@, 0) == first_non_family(v@, i as int),
        decreases v.len() - i,
    {
        let c = v[i];
        if !(crate::chars::alphanumeric(c) || c == ' ' || c == '-' || c == '_' || c == '.' || c == '+') {
            let mut m = quoted_path_v(at);
            push_str(&mut m, ": family name ");
            let d = debug_str(name);
            push_str(&mut m, d.as_str());
            push_str(&mut m, " contains ");
            let dc = debug_char(c);
            push_str(&mut m, dc.as_str());
            push_str(&mut m, "; names may use letters, digits, spaces, `-`, `_`, `.`, and `+`");
            return Err(invalid_msg(m));
        }
        i += 1;
    }
    Ok(name)
}

/// The CSS generic families, emitted unquoted.
pub open spec fn generic_family(s: Seq<char>) -> bool {
    ||| s == "serif"@
    ||| s == "sans-serif"@
    ||| s == "monospace"@
    ||| s == "cursive"@
    ||| s == "fantasy"@
    ||| s == "system-ui"@
    ||| s == "ui-serif"@
    ||| s == "ui-sans-serif"@
    ||| s == "ui-monospace"@
    ||| s == "ui-rounded"@
    ||| s == "math"@
    ||| s == "emoji"@
    ||| s == "fangsong"@
}

fn is_generic_family(s: &[char]) -> (r: bool)
    ensures
        r == generic_family(s@),
{
    let t = string_of(s);
    let u = t.as_str();
    crate::markdown::eq_chars(s, chars_of("serif").as_slice()) || crate::markdown::eq_chars(s, chars_of("sans-serif").as_slice())
        || crate::markdown::eq_chars(s, chars_of("monospace").as_slice()) || crate::markdown::eq_chars(s, chars_of("cursive").as_slice())
        || crate::markdown::eq_chars(s, chars_of("fantasy").as_slice()) || crate::markdown::eq_chars(s, chars_of("system-ui").as_slice())
        || crate::markdown::eq_chars(s, chars_of("ui-serif").as_slice()) || crate::markdown::eq_chars(s, chars_of("ui-sans-serif").as_slice())
        || crate::markdown::eq_chars(s, chars_of("ui-monospace").as_slice()) || crate::markdown::eq_chars(s, chars_of("ui-rounded").as_slice())
        || crate::markdown::eq_chars(s, chars_of("math").as_slice()) || crate::markdown::eq_chars(s, chars_of("emoji").as_slice())
        || crate::markdown::eq_chars(s, chars_of("fangsong").as_slice())
}

/// The CSS emission of family-list segments from index `i` on, given the
/// text emitted so far: each trimmed segment must be non-empty; generic
/// keywords are emitted bare, names double-quoted, all joined by `, `.
pub open spec fn family_scan(segs: Seq<Seq<char>>, i: int, css: Seq<char>, raw: Seq<char>, at: Seq<char>) -> Result<Seq<char>, Seq<char>>
    decreases segs.len() - i,
{
    if i < 0 || i >= segs.len() {
        if css.len() == 0 {
            Err(quoted_path(at) + " must name at least one family"@)
        } else {
            Ok(css)
        }
    } else {
        let seg = trim(segs[i]);
        let sep: Seq<char> = if css.len() > 0 { seq![',', ' '] } else { Seq::empty() };
        if seg.len() == 0 {
            Err(quoted_path(at) + " has an empty family (check the commas in "@ + str_debug(raw) + ")"@)
        } else if generic_family(seg) {
            family_scan(segs, i + 1, css + sep + seg, raw, at)
        } else {
            match family_name_error(seg, at) {
                Some(m) => Err(m),
                None => family_scan(segs, i + 1, css + sep + seq!['"'] + seg + seq!['"'], raw, at),
            }
        }
    }
}

/// The parse of a family list such as `Newsreader, Georgia, serif`.
pub open spec fn family_parse(raw: Seq<char>, at: Seq<char>) -> Result<Seq<char>, Seq<char>> {
    family_scan(crate::text::split(raw, ','), 0, Seq::empty(), raw, at)
}

/// A char of a family list as emitted: a family-name char, the comma
/// between items, or the double quote around a name.
pub open spec fn family_css_char(c: char) -> bool {
    family_char(c) || c == ',' || c == '"'
}

pub proof fn lemma_first_non_family_none(s: Seq<char>, i: int)
    requires
        0 <= i,
        first_non_family(s, i) is None,
    ensures
        forall|j: int| i <= j < s.len() ==> family_char(#[trigger] s[j]),
    decreases s.len() - i,
{
    if i < s.len() {
        lemma_first_non_family_none(s, i + 1);
    }
}

pub proof fn lemma_generic_family_chars(s: Seq<char>)
    requires
        generic_family(s),
    ensures
        forall|i: int| 0 <= i < s.len() ==> family_char(#[trigger] s[i]),
{
    reveal_strlit("serif");
    reveal_strlit("sans-serif");
    reveal_strlit("monospace");
    reveal_strlit("cursive");
    reveal_strlit("fantasy");
    reveal_strlit("system-ui");
    reveal_strlit("ui-serif");
    reveal_strlit("ui-sans-serif");
    reveal_strlit("ui-monospace");
    reveal_strlit("ui-rounded");
    reveal_strlit("math");
    reveal_strlit("emoji");
    reveal_strlit("fangsong");
    assert forall|i: int| 0 <= i < s.len() implies family_char(#[trigger] s[i]) by {
        assert(s[i] == '-' || crate::chars::is_ascii_lower(s[i]));
    }
}

pub proof fn lemma_family_scan_chars(segs: Seq<Seq<char>>, i: int, css: Seq<char>, raw: Seq<char>, at: Seq<char>)
    requires
        forall|k: int| 0 <= k < css.len() ==> family_css_char(#[trigger] css[k]),
    ensures
        family_scan(segs, i, css, raw, at) matches Ok(out) ==> forall|k: int| 0 <= k < out.len() ==> family_css_char(#[trigger] out[k]),
    decreases segs.len() - i,
{
    if 0 <= i < segs.len() {
        let seg = trim(segs[i]);
        let sep: Seq<char> = if css.len() > 0 { seq![',', ' '] } else { Seq::empty() };
        if seg.len() > 0 {
            if generic_family(seg) {
                lemma_generic_family_chars(seg);
                let next = css + sep + seg;
                assert forall|k: int| 0 <= k < next.len() implies family_css_char(#[trigger] next[k]) by {
                    if k < css.len() {
                        assert(next[k] == css[k]);
                    } else if k < css.len() + sep.len() {
                        assert(next[k] == sep[k - css.len()]);
                    } else {
                        assert(next[k] == seg[k - css.len() - sep.len()]);
                    }
                }
                lemma_family_scan_chars(segs, i + 1, next, raw, at);
            } else if family_name_error(seg, at) is None {
                lemma_first_non_family_none(seg, 0);
                let next = css + sep + seq!['"'] + seg + seq!['"'];
                assert forall|k: int| 0 <= k < next.len() implies family_css_char(#[trigger] next[k]) by {
                    let a = css.len() + sep.len();
                    if k < css.len() {
                        assert(next[k] == css[k]);
                    } else if k < a {
                        assert(next[k] == sep[k - css.len()]);
                    } else if k == a || k == a + 1 + seg.len() {
                    } else {
                        assert(next[k] == seg[k - a - 1]);
                    }
                }
                lemma_family_scan_chars(segs, i + 1, next, raw, at);
            }
        }
    }
}

/// A parsed family list cannot break out of its declaration: it holds only
/// family-name chars (letters and digits, spaces, `-`, `_`, `.`, `+`), the
/// commas between items, and the double quotes around names, so never a
/// `;`, a brace, a backslash, a single quote, or a parenthesis.
pub proof fn lemma_family_css_safe(raw: Seq<char>, at: Seq<char>)
    ensures
        family_parse(raw, at) matches Ok(css) ==> {
            &&& forall|k: int| 0 <= k < css.len() ==> family_css_char(#[trigger] css[k])
            &&& forall|k: int| 0 <= k < css.len() ==> {
                let c = #[trigger] css[k];
                c != ';' && c != '{' && c != '}' && c != '\\' && c != '\'' && c != '(' && c != ')'
            }
        },
{
    lemma_family_scan_chars(crate::text::split(raw, ','), 0, Seq::empty(), raw, at);
}

/// A validated CSS `font-family` list, stored as the CSS text it emits.
#[derive(Clone, Debug, PartialEq, Eq)]
pub struct FamilyList(String);

impl FamilyList {
    pub closed spec fn css(&self) -> Seq<char> {
        self.0@
    }

    /// The CSS text, e.g. `"Newsreader", "Georgia", serif`.
    pub fn as_css(&self) -> (r: &str)
        ensures
            r@ == self.css(),
    {
        self.0.as_str()
    }

    /// Parses `Newsreader, Georgia, serif` into its CSS form (see
    /// [`family_parse`]).
    pub fn parse(raw: &str, at: &str) -> (r: Result<FamilyList, crate::config::ConfigErrorKind>)
        ensures
            match r {
                Ok(f) => family_parse(raw@, at@) == Ok::<Seq<char>, Seq<char>>(f.css()),
                Err(e) => e matches crate::config::ConfigErrorKind::Invalid(m) && family_parse(raw@, at@) == Err::<Seq<char>, Seq<char>>(m@),
            },
    {
        let rv = chars_of(raw);
        let segs = crate::text::split_v(rv.as_slice(), ',');
        let ghost sv = views(segs@);
        let mut css: Vec<char> = Vec::new();
        let mut i: usize = 0;
        while i < segs.len()
            invariant
                i <= segs@.len(),
                sv == views(segs@),
                sv == crate::text::split(raw@, ','),
                family_parse(raw@, at@) == family_scan(sv, i as int, css@, raw@, at@),
            decreases segs.len() - i,
        {
            let seg = trim_v(segs[i].as_slice());
            assert(seg@ == trim(sv[i as int]));
            if seg.len() == 0 {
                let mut m = quoted_path_v(at);
                push_str(&mut m, " has an empty family (check the commas in ");
                let d = debug_str(raw);
                push_str(&mut m, d.as_str());
                push_str(&mut m, ")");
                return Err(invalid_msg(m));
            }
            let ghost css_old = css@;
            if css.len() > 0 {
                css.push(',');
                css.push(' ');
            }
            let ghost with_sep = css@;
            let ghost sep: Seq<char> = if css_old.len() > 0 { seq![',', ' '] } else { Seq::empty() };
            assert(with_sep =~= css_old + sep);
            if is_generic_family(seg.as_slice()) {
                push_all(&mut css, seg.as_slice());
            } else {
                let seg_s = string_of(seg.as_slice());
                match family_name(seg_s.as_str(), at) {
                    Ok(_) => {
                        css.push('"');
                        push_all(&mut css, seg.as_slice());
                        css.push('"');
                    },
                    Err(e) => {
                        return Err(e);
                    },
                }
            }
            proof {
                if generic_family(seg@) {
                    assert(css@ =~= css_old + sep + seg@);
                } else {
                    assert(css@ =~= css_old + sep + seq!['"'] + seg@ + seq!['"']);
                }
            }
            i += 1;
        }
        if css.len() == 0 {
            let mut m = quoted_path_v(at);
            push_str(&mut m, " must name at least one family");
            return Err(invalid_msg(m));
        }
        Ok(FamilyList(string_of(css.as_slice())))
    }
}

// ---------------------------------------------------------------------------
// Font files.
// ---------------------------------------------------------------------------

/// The font file formats the site serves, one per accepted extension.
#[derive(Clone, Copy, Debug, PartialEq, Eq, Structural)]
pub enum FontFormat {
    /// `.woff2`
    Woff2,
    /// `.woff`
    Woff,
    /// `.ttf`
    Ttf,
    /// `.otf`
    Otf,
}

pub open spec fn format_name(f: FontFormat) -> Seq<char> {
    match f {
        FontFormat::Woff2 => "woff2"@,
        FontFormat::Woff => "woff"@,
        FontFormat::Ttf => "truetype"@,
        FontFormat::Otf => "opentype"@,
    }
}

pub open spec fn format_of_extension(ext: Seq<char>) -> Option<FontFormat> {
    if ext == "woff2"@ {
        Some(FontFormat::Woff2)
    } else if ext == "woff"@ {
        Some(FontFormat::Woff)
    } else if ext == "ttf"@ {
        Some(FontFormat::Ttf)
    } else if ext == "otf"@ {
        Some(FontFormat::Otf)
    } else {
        None
    }
}

impl FontFormat {
    /// The `@font-face` `format()` hint.
    pub fn as_css(self) -> (r: &'static str)
        ensures
            r@ == format_name(self),
    {
        match self {
            FontFormat::Woff2 => "woff2",
            FontFormat::Woff => "woff",
            FontFormat::Ttf => "truetype",
            FontFormat::Otf => "opentype",
        }
    }

    /// The format for a file extension (`woff2`, `woff`, `ttf`, `otf`).
    pub fn from_extension(ext: &str) -> (r: Option<FontFormat>)
        ensures
            r == format_of_extension(ext@),
    {
        let e = chars_of(ext);
        if crate::markdown::eq_chars(e.as_slice(), chars_of("woff2").as_slice()) {
            Some(FontFormat::Woff2)
        } else if crate::markdown::eq_chars(e.as_slice(), chars_of("woff").as_slice()) {
            Some(FontFormat::Woff)
        } else if crate::markdown::eq_chars(e.as_slice(), chars_of("ttf").as_slice()) {
            Some(FontFormat::Ttf)
        } else if crate::markdown::eq_chars(e.as_slice(), chars_of("otf").as_slice()) {
            Some(FontFormat::Otf)
        } else {
            None
        }
    }
}

/// The `font-style` descriptors a face may be configured with.
#[derive(Clone, Copy, Debug, PartialEq, Eq, Structural)]
pub enum FontStyle {
    /// The default.
    Normal,
    /// A true italic face.
    Italic,
    /// A slanted face.
    Oblique,
}

pub open spec fn style_name(s: FontStyle) -> Seq<char> {
    match s {
        FontStyle::Normal => "normal"@,
        FontStyle::Italic => "italic"@,
        FontStyle::Oblique => "oblique"@,
    }
}

impl FontStyle {
    /// The `font-style` value.
    pub fn as_css(self) -> (r: &'static str)
        ensures
            r@ == style_name(self),
    {
        match self {
            FontStyle::Normal => "normal",
            FontStyle::Italic => "italic",
            FontStyle::Oblique => "oblique",
        }
    }
}

/// A char a font file name may hold: ASCII letters, digits, `.`, `-`, `_`.
pub open spec fn file_char(c: char) -> bool {
    is_ascii_alnum(c) || c == '.' || c == '-' || c == '_'
}

pub open spec fn first_non_file(s: Seq<char>, i: int) -> Option<int>
    decreases s.len() - i,
{
    if i < 0 || i >= s.len() {
        None
    } else if !file_char(s[i]) {
        Some(i)
    } else {
        first_non_file(s, i + 1)
    }
}

pub open spec fn has_double_dot(s: Seq<char>) -> bool {
    exists|i: int| 0 <= i < s.len() - 1 && s[i] == '.' && #[trigger] s[i + 1] == '.'
}

/// The index of the last `.` in `s`, if any.
pub open spec fn last_dot(s: Seq<char>) -> Option<int>
    decreases s.len(),
{
    if s.len() == 0 {
        None
    } else if s.last() == '.' {
        Some(s.len() - 1)
    } else {
        last_dot(s.drop_last())
    }
}

/// The check of a font file name at `at`: its format, or the message.
pub open spec fn font_file_check(name: Seq<char>, at: Seq<char>) -> Result<FontFormat, Seq<char>> {
    let head = quoted_path(at) + ": "@ + str_debug(name);
    let reject = |why: Seq<char>| head + " "@ + why + "; use a flat file name under `.okf/fonts`, e.g. `newsreader-400.woff2`"@;
    if name.len() == 0 {
        Err(reject("is empty"@))
    } else if name[0] == '.' {
        Err(reject("starts with a dot"@))
    } else {
        match first_non_file(name, 0) {
            Some(k) => Err(head + " contains "@ + char_debug(name[k]) + "; file names may use ASCII letters, digits, `.`, `-`, and `_`"@),
            None => if has_double_dot(name) {
                Err(reject("contains `..`"@))
            } else {
                match last_dot(name) {
                    None => Err(reject("has no file extension"@)),
                    Some(d) => match format_of_extension(name.skip(d + 1)) {
                        None => Err(head + " is not a font format `okf site` serves; use .woff2, .woff, .ttf, or .otf"@),
                        Some(f) => Ok(f),
                    },
                }
            },
        }
    }
}


fn reject_file(head: Vec<char>, why: &str) -> (r: crate::config::ConfigErrorKind)
    ensures
        r matches crate::config::ConfigErrorKind::Invalid(m) && m@ == head@ + " "@ + why@ + "; use a flat file name under `.okf/fonts`, e.g. `newsreader-400.woff2`"@,
{
    let mut m = head;
    push_str(&mut m, " ");
    push_str(&mut m, why);
    push_str(&mut m, "; use a flat file name under `.okf/fonts`, e.g. `newsreader-400.woff2`");
    invalid_msg(m)
}

/// Validates a font file name: flat, ASCII, extension-checked; returns the
/// name and its format.
pub fn font_file_name(name: &str, at: &str) -> (r: Result<(String, FontFormat), crate::config::ConfigErrorKind>)
    ensures
        match r {
            Ok(p) => p.0@ == name@ && font_file_check(name@, at@) == Ok::<FontFormat, Seq<char>>(p.1),
            Err(e) => e matches crate::config::ConfigErrorKind::Invalid(m) && font_file_check(name@, at@) == Err::<FontFormat, Seq<char>>(m@),
        },
{
    let v = chars_of(name);
    let mut head = quoted_path_v(at);
    push_str(&mut head, ": ");
    let d = debug_str(name);
    push_str(&mut head, d.as_str());
    if v.len() == 0 {
        return Err(reject_file(head, "is empty"));
    }
    if v[0] == '.' {
        return Err(reject_file(head, "starts with a dot"));
    }
    let mut i: usize = 0;
    while i < v.len()
        invariant
            i <= v@.len(),
            v@ == name@,
            v@.len() > 0 && v@[0] != '.',
            head@ == quoted_path(at@) + ": "@ + str_debug(name@),
            first_non_file(v@, 0) == first_non_file(v@, i as int),
        decreases v.len() - i,
    {
        let c = v[i];
        if !(crate::chars::ascii_alnum(c) || c == '.' || c == '-' || c == '_') {
            let mut m = head;
            push_str(&mut m, " contains ");
            let dc = debug_char(c);
            push_str(&mut m, dc.as_str());
            push_str(&mut m, "; file names may use ASCII letters, digits, `.`, `-`, and `_`");
            return Err(invalid_msg(m));
        }
        i += 1;
    }
    let n = v.len();
    let mut k: usize = 0;
    while k + 1 < n
        invariant
            n == v@.len(),
            k < n,
            v@ == name@,
            v@.len() > 0 && v@[0] != '.',
            first_non_file(v@, 0) is None,
            head@ == quoted_path(at@) + ": "@ + str_debug(name@),
            forall|j: int| 0 <= j < k ==> !(v@[j] == '.' && #[trigger] v@[j + 1] == '.'),
        decreases n - k,
    {
        if v[k] == '.' && v[k + 1] == '.' {
            assert(v@[k as int] == '.' && v@[k + 1] == '.');
            return Err(reject_file(head, "contains `..`"));
        }
        k += 1;
    }
    proof {
        assert(v@.take(v@.len() as int) =~= v@);
    }
    let mut j: usize = v.len();
    while j > 0 && v[j - 1] != '.'
        invariant
            j <= v@.len(),
            last_dot(v@) == last_dot(v@.take(j as int)),
        decreases j,
    {
        proof {
            assert(v@.take(j as int).drop_last() =~= v@.take(j - 1));
        }
        j -= 1;
    }
    proof {
        assert(v@.take(v@.len() as int) =~= v@);
    }
    if j == 0 {
        proof {
            assert(v@.take(0) =~= Seq::<char>::empty());
        }
        return Err(reject_file(head, "has no file extension"));
    }
    proof {
        assert(v@.take(j as int).last() == '.');
    }
    let ext = slice_of(v.as_slice(), j, v.len());
    assert(ext@ =~= v@.skip(j as int));
    let ext_s = string_of(ext.as_slice());
    match FontFormat::from_extension(ext_s.as_str()) {
        None => {
            let mut m = head;
            push_str(&mut m, " is not a font format `okf site` serves; use .woff2, .woff, .ttf, or .otf");
            Err(invalid_msg(m))
        },
        Some(f) => Ok((string_of(v.as_slice()), f)),
    }
}

// ---------------------------------------------------------------------------
// Theme ids.
// ---------------------------------------------------------------------------

/// A theme id: a lowercase letter, then up to 31 more lowercase letters,
/// digits, or `-` (`[a-z][a-z0-9-]{0,31}`).
pub open spec fn theme_id_ok(id: Seq<char>) -> bool {
    &&& id.len() > 0
    &&& 'a' <= id[0] <= 'z'
    &&& id.len() <= 32
    &&& forall|i: int| 1 <= i < id.len() ==> crate::site::safe_id_char(#[trigger] id[i])
}

/// The message for an id of the wrong shape at `at`.
pub open spec fn theme_id_message(id: Seq<char>, at: Seq<char>) -> Seq<char> {
    quoted_path(at) + ": theme id "@ + str_debug(id) + " must match `[a-z][a-z0-9-]{0,31}` — a lowercase letter, then up to 31 more lowercase letters, digits, or `-`"@
}

/// Validates a theme id (see [`theme_id_ok`]).
pub fn theme_id<'a>(id: &'a str, at: &str) -> (r: Result<&'a str, crate::config::ConfigErrorKind>)
    ensures
        match r {
            Ok(x) => x@ == id@ && theme_id_ok(id@),
            Err(e) => e matches crate::config::ConfigErrorKind::Invalid(m) && !theme_id_ok(id@) && m@ == theme_id_message(id@, at@),
        },
{
    let v = chars_of(id);
    let ok = v.len() > 0 && 'a' <= v[0] && v[0] <= 'z' && v.len() <= 32 && {
        let mut i: usize = 1;
        let mut good = true;
        while i < v.len()
            invariant
                1 <= i <= v@.len(),
                good == forall|k: int| 1 <= k < i ==> crate::site::safe_id_char(#[trigger] v@[k]),
            decreases v.len() - i,
        {
            let c = v[i];
            if !(('a' <= c && c <= 'z') || ('0' <= c && c <= '9') || c == '-') {
                good = false;
            }
            i += 1;
        }
        good
    };
    if ok {
        Ok(id)
    } else {
        let mut m = quoted_path_v(at);
        push_str(&mut m, ": theme id ");
        let d = debug_str(id);
        push_str(&mut m, d.as_str());
        push_str(&mut m, " must match `[a-z][a-z0-9-]{0,31}` — a lowercase letter, then up to 31 more lowercase letters, digits, or `-`");
        Err(invalid_msg(m))
    }
}

} // verus!
