//! Per-bundle site configuration: the `site:` section of `.okf/config.yaml`,
//! reduced to what the site build consumes, and the stylesheets built from
//! it.
//!
//! No configured string reaches a stylesheet verbatim: family lists parse
//! into segments that are re-emitted, colors parse against a closed grammar
//! and are re-emitted from the parse, theme ids and font file names are
//! held to closed charsets.
use crate::chars::{chars_of, string_of};
pub use crate::css::{Color, FamilyList, FontFormat, FontStyle};
use crate::css::{color_parse, family_parse, font_file_check, quoted_path, theme_id_message, theme_id_ok};
use crate::slugs::{decimal, decimal_u64_v, decimal_v};
use crate::text::{join, push_all, push_str, trim, trim_v};
use crate::yaml::{display_of, get, lookup, lookup_from, str_of, Value};
use vstd::prelude::*;

verus! {

/// The theme id meaning "follow the system preference".
pub const AUTO_THEME_ID: &'static str = "auto";

/// The base palette's family id: the absence of a `data-theme` attribute.
pub const DEFAULT_THEME_ID: &'static str = "default";

/// The light/dark axis a theme sits on.
#[derive(Clone, Copy, Debug, PartialEq, Eq, Structural)]
pub enum Scheme {
    /// A light palette.
    Light,
    /// A dark palette.
    Dark,
}

pub open spec fn scheme_name(s: Scheme) -> Seq<char> {
    match s {
        Scheme::Light => seq!['l', 'i', 'g', 'h', 't'],
        Scheme::Dark => seq!['d', 'a', 'r', 'k'],
    }
}

impl Scheme {
    /// The `data-scheme` attribute value.
    pub fn as_css(self) -> (r: String)
        ensures
            r@ == scheme_name(self),
    {
        let v: Vec<char> = match self {
            Scheme::Light => vec!['l', 'i', 'g', 'h', 't'],
            Scheme::Dark => vec!['d', 'a', 'r', 'k'],
        };
        proof {
            assert(v@ =~= scheme_name(self));
        }
        string_of(v.as_slice())
    }
}

/// A visitor's appearance choice: follow the system, or pin one scheme.
#[derive(Clone, Copy, Debug, PartialEq, Eq, Structural)]
pub enum SchemePref {
    /// Follow the system preference.
    Auto,
    /// Always light.
    Light,
    /// Always dark.
    Dark,
}

pub open spec fn scheme_pref_name(s: SchemePref) -> Seq<char> {
    match s {
        SchemePref::Auto => seq!['a', 'u', 't', 'o'],
        SchemePref::Light => seq!['l', 'i', 'g', 'h', 't'],
        SchemePref::Dark => seq!['d', 'a', 'r', 'k'],
    }
}

impl SchemePref {
    /// The stored value: `auto`, `light`, or `dark`.
    pub fn as_str(self) -> (r: String)
        ensures
            r@ == scheme_pref_name(self),
    {
        let v: Vec<char> = match self {
            SchemePref::Auto => vec!['a', 'u', 't', 'o'],
            SchemePref::Light => vec!['l', 'i', 'g', 'h', 't'],
            SchemePref::Dark => vec!['d', 'a', 'r', 'k'],
        };
        proof {
            assert(v@ =~= scheme_pref_name(self));
        }
        string_of(v.as_slice())
    }
}


/// A YAML syntax error: the 1-based line and what is wrong there.
#[derive(Clone, Debug)]
pub struct YamlError {
    pub line: usize,
    pub message: String,
}

/// The kinds of configuration failure.
#[derive(Clone, Debug)]
pub enum ConfigErrorKind {
    /// The file exists but could not be read (the reader's message).
    Read(String),
    /// The file is not YAML the subset parser accepts.
    Yaml(YamlError),
    /// The YAML parsed, but a key, type, or value is not one the site build
    /// knows.
    Invalid(String),
}


// ---------------------------------------------------------------------------
// Reading the `site:` section.
// ---------------------------------------------------------------------------

/// `Ok` value or error message of a reader.
pub type Read<T> = Result<T, Seq<char>>;

fn invalid(v: Vec<char>) -> (r: ConfigErrorKind)
    ensures
        r matches ConfigErrorKind::Invalid(m) && m@ == v@,
{
    ConfigErrorKind::Invalid(string_of(v.as_slice()))
}

/// The message of an `Invalid` error (empty for the other kinds).
pub open spec fn msg(e: ConfigErrorKind) -> Seq<char> {
    match e {
        ConfigErrorKind::Invalid(m) => m@,
        _ => Seq::empty(),
    }
}

fn quoted(at: &str) -> (r: Vec<char>)
    ensures
        r@ == quoted_path(at@),
{
    let mut v: Vec<char> = vec!['`'];
    push_str(&mut v, at);
    v.push('`');
    assert(v@ =~= quoted_path(at@));
    v
}

/// `(m, at) -> message`: the value at `at` must be a mapping.
pub open spec fn mapping_or_empty_spec(v: Value, at: Seq<char>) -> Read<Option<Seq<(Value, Value)>>> {
    match v {
        Value::Null => Ok(None),
        Value::Mapping(m) => Ok(Some(m@)),
        _ => Err(quoted_path(at) + " must be a mapping"@),
    }
}

fn mapping_or_empty<'a>(v: &'a Value, at: &str) -> (r: Result<Option<&'a Vec<(Value, Value)>>, ConfigErrorKind>)
    ensures
        match r {
            Ok(Some(m)) => mapping_or_empty_spec(*v, at@) == Ok::<Option<Seq<(Value, Value)>>, Seq<char>>(Some(m@)),
            Ok(None) => mapping_or_empty_spec(*v, at@) == Ok::<Option<Seq<(Value, Value)>>, Seq<char>>(None),
            Err(e) => e is Invalid && mapping_or_empty_spec(*v, at@) == Err::<Option<Seq<(Value, Value)>>, Seq<char>>(msg(e)),
        },
{
    match v {
        Value::Null => Ok(None),
        Value::Mapping(m) => Ok(Some(m)),
        _ => {
            let mut m = quoted(at);
            push_str(&mut m, " must be a mapping");
            Err(invalid(m))
        },
    }
}

/// The first key from `i` on that is not a string, if any.
pub open spec fn has_non_string_key(m: Seq<(Value, Value)>) -> bool {
    exists|i: int| 0 <= i < m.len() && #[trigger] str_of(m[i].0) is None
}

/// The first string key from `i` on that `known` lacks.
pub open spec fn first_unknown(m: Seq<(Value, Value)>, known: Seq<Seq<char>>, i: int) -> Option<Seq<char>>
    decreases m.len() - i,
{
    if i < 0 || i >= m.len() {
        None
    } else {
        match str_of(m[i].0) {
            Some(k) => if known.contains(k) {
                first_unknown(m, known, i + 1)
            } else {
                Some(k)
            },
            None => first_unknown(m, known, i + 1),
        }
    }
}

/// The key check of a section: every key a string the section defines.
pub open spec fn check_keys_spec(m: Seq<(Value, Value)>, at: Seq<char>, known: Seq<Seq<char>>) -> Option<Seq<char>> {
    if has_non_string_key(m) {
        Some(quoted_path(at) + " keys must be strings"@)
    } else {
        match first_unknown(m, known, 0) {
            Some(k) => Some("unknown key `"@ + k + "` in "@ + quoted_path(at) + " (known keys: "@ + join(known, ", "@) + ")"@),
            None => None,
        }
    }
}

pub open spec fn str_views(v: Seq<&str>) -> Seq<Seq<char>> {
    v.map_values(|s: &str| s@)
}

fn check_keys(m: &Vec<(Value, Value)>, at: &str, known: &[&'static str]) -> (r: Result<(), ConfigErrorKind>)
    ensures
        match r {
            Ok(_) => check_keys_spec(m@, at@, str_views(known@)) is None,
            Err(e) => e is Invalid && check_keys_spec(m@, at@, str_views(known@)) == Some(msg(e)),
        },
{
    let ghost kv = str_views(known@);
    let mut i: usize = 0;
    while i < m.len()
        invariant
            i <= m@.len(),
            forall|j: int| 0 <= j < i ==> !(#[trigger] str_of(m@[j].0) is None),
        decreases m.len() - i,
    {
        if m[i].0.as_str().is_none() {
            let mut msgv = quoted(at);
            push_str(&mut msgv, " keys must be strings");
            assert(str_of(m@[i as int].0) is None);
            return Err(invalid(msgv));
        }
        i += 1;
    }
    let mut i: usize = 0;
    while i < m.len()
        invariant
            i <= m@.len(),
            !has_non_string_key(m@),
            kv == str_views(known@),
            first_unknown(m@, kv, 0) == first_unknown(m@, kv, i as int),
        decreases m.len() - i,
    {
        let key = m[i].0.as_str();
        match key {
            Some(k) => {
                let kc = chars_of(k);
                let mut found = false;
                let mut j: usize = 0;
                while j < known.len()
                    invariant
                        j <= known@.len(),
                        kv == str_views(known@),
                        found == exists|t: int| 0 <= t < j && kv[t] == kc@,
                    decreases known.len() - j,
                {
                    let kn = chars_of(known[j]);
                    assert(kv[j as int] == kn@);
                    if crate::markdown::eq_chars(kn.as_slice(), kc.as_slice()) {
                        found = true;
                        assert(kv[j as int] == kc@);
                    }
                    j += 1;
                }
                if !found {
                    proof {
                        assert(!kv.contains(kc@));
                    }
                    let mut msgv: Vec<char> = Vec::new();
                    push_str(&mut msgv, "unknown key `");
                    push_all(&mut msgv, kc.as_slice());
                    push_str(&mut msgv, "` in ");
                    let q = quoted(at);
                    push_all(&mut msgv, q.as_slice());
                    push_str(&mut msgv, " (known keys: ");
                    let joined = join_strs(known);
                    push_all(&mut msgv, joined.as_slice());
                    push_str(&mut msgv, ")");
                    return Err(invalid(msgv));
                }
                proof {
                    let t = choose|t: int| 0 <= t < known@.len() && kv[t] == kc@;
                    assert(kv.contains(kc@));
                }
            },
            None => {},
        }
        i += 1;
    }
    Ok(())
}

/// `known.join(", ")`
fn join_strs(known: &[&'static str]) -> (r: Vec<char>)
    ensures
        r@ == join(str_views(known@), ", "@),
{
    let mut parts: Vec<Vec<char>> = Vec::new();
    let mut j: usize = 0;
    while j < known.len()
        invariant
            j <= known@.len(),
            crate::text::views(parts@) == str_views(known@).take(j as int),
        decreases known.len() - j,
    {
        let ghost before = crate::text::views(parts@);
        let c = chars_of(known[j]);
        assert(c@ == str_views(known@)[j as int]);
        parts.push(c);
        assert(crate::text::views(parts@) =~= before.push(c@));
        assert(crate::text::views(parts@) =~= str_views(known@).take(j + 1));
        j += 1;
    }
    assert(str_views(known@).take(known@.len() as int) =~= str_views(known@));
    let sep = chars_of(", ");
    crate::text::join_v(&parts, sep.as_slice())
}

/// `"{at}` needs a string `{key}`" unless the entry is a string.
pub open spec fn required_str_spec(m: Seq<(Value, Value)>, key: Seq<char>, at: Seq<char>) -> Read<Seq<char>> {
    match lookup(m, key) {
        Some(v) => match str_of(v) {
            Some(s) => Ok(s),
            None => Err(quoted_path(at) + " needs a string `"@ + key + "`"@),
        },
        None => Err(quoted_path(at) + " needs a string `"@ + key + "`"@),
    }
}

fn required_str<'a>(m: &'a Vec<(Value, Value)>, key: &str, at: &str) -> (r: Result<&'a str, ConfigErrorKind>)
    ensures
        match r {
            Ok(s) => required_str_spec(m@, key@, at@) == Ok::<Seq<char>, Seq<char>>(s@),
            Err(e) => e is Invalid && required_str_spec(m@, key@, at@) == Err::<Seq<char>, Seq<char>>(msg(e)),
        },
{
    match get(m, key) {
        Some(v) => match v.as_str() {
            Some(s) => {
                return Ok(s);
            },
            None => {},
        },
        None => {},
    }
    let mut msgv = quoted(at);
    push_str(&mut msgv, " needs a string `");
    push_str(&mut msgv, key);
    push_str(&mut msgv, "`");
    Err(invalid(msgv))
}


/// `prefix[i]`: a list element's configuration path.
pub open spec fn indexed(prefix: Seq<char>, i: nat) -> Seq<char> {
    prefix + seq!['['] + decimal(i) + seq![']']
}

fn indexed_v(prefix: &str, i: usize) -> (r: String)
    ensures
        r@ == indexed(prefix@, i as nat),
{
    let mut v = chars_of(prefix);
    v.push('[');
    let d = decimal_v(i);
    push_all(&mut v, d.as_slice());
    v.push(']');
    string_of(v.as_slice())
}

fn suffixed_path(at: &str, tail: &str) -> (r: String)
    ensures
        r@ == at@ + tail@,
{
    let mut v = chars_of(at);
    push_str(&mut v, tail);
    string_of(v.as_slice())
}

/// `style:` of a face: `normal` when absent or null.
pub open spec fn style_read(v: Option<Value>, at: Seq<char>) -> Read<FontStyle> {
    match v {
        None => Ok(FontStyle::Normal),
        Some(Value::Null) => Ok(FontStyle::Normal),
        Some(x) => {
            let s = str_of(x);
            if s == Some("normal"@) {
                Ok(FontStyle::Normal)
            } else if s == Some("italic"@) {
                Ok(FontStyle::Italic)
            } else if s == Some("oblique"@) {
                Ok(FontStyle::Oblique)
            } else {
                Err(quoted_path(at + ".style"@) + " must be one of: normal, italic, oblique"@)
            }
        },
    }
}

fn str_is(s: &str, lit: &str) -> (r: bool)
    ensures
        r == (s@ == lit@),
{
    let a = chars_of(s);
    let b = chars_of(lit);
    crate::markdown::eq_chars(a.as_slice(), b.as_slice())
}

fn read_style(v: Option<&Value>, at: &str) -> (r: Result<FontStyle, ConfigErrorKind>)
    ensures
        match r {
            Ok(x) => style_read(opt_val(v), at@) == Ok::<FontStyle, Seq<char>>(x),
            Err(e) => e is Invalid && style_read(opt_val(v), at@) == Err::<FontStyle, Seq<char>>(msg(e)),
        },
{
    match v {
        None => Ok(FontStyle::Normal),
        Some(x) => {
            if x.is_null() {
                return Ok(FontStyle::Normal);
            }
            match x.as_str() {
                Some(s) => {
                    if str_is(s, "normal") {
                        return Ok(FontStyle::Normal);
                    } else if str_is(s, "italic") {
                        return Ok(FontStyle::Italic);
                    } else if str_is(s, "oblique") {
                        return Ok(FontStyle::Oblique);
                    }
                },
                None => {},
            }
            let p = suffixed_path(at, ".style");
            let mut m = quoted(p.as_str());
            push_str(&mut m, " must be one of: normal, italic, oblique");
            Err(invalid(m))
        },
    }
}

pub open spec fn opt_val(v: Option<&Value>) -> Option<Value> {
    match v {
        Some(x) => Some(*x),
        None => None,
    }
}

/// `scheme:` of a theme: required, `light` or `dark`.
pub open spec fn scheme_read(v: Option<Value>, at: Seq<char>) -> Read<Scheme> {
    match v {
        None => Err(quoted_path(at) + " needs a `scheme` of `light` or `dark`"@),
        Some(Value::Null) => Err(quoted_path(at) + " needs a `scheme` of `light` or `dark`"@),
        Some(x) => {
            let s = str_of(x);
            if s == Some("light"@) {
                Ok(Scheme::Light)
            } else if s == Some("dark"@) {
                Ok(Scheme::Dark)
            } else {
                Err(quoted_path(at + ".scheme"@) + " must be `light` or `dark`"@)
            }
        },
    }
}

fn read_scheme(v: Option<&Value>, at: &str) -> (r: Result<Scheme, ConfigErrorKind>)
    ensures
        match r {
            Ok(x) => scheme_read(opt_val(v), at@) == Ok::<Scheme, Seq<char>>(x),
            Err(e) => e is Invalid && scheme_read(opt_val(v), at@) == Err::<Scheme, Seq<char>>(msg(e)),
        },
{
    let missing = match v {
        None => true,
        Some(x) => x.is_null(),
    };
    if missing {
        let mut m = quoted(at);
        push_str(&mut m, " needs a `scheme` of `light` or `dark`");
        return Err(invalid(m));
    }
    match v {
        Some(x) => match x.as_str() {
            Some(s) => {
                if str_is(s, "light") {
                    return Ok(Scheme::Light);
                } else if str_is(s, "dark") {
                    return Ok(Scheme::Dark);
                }
            },
            None => {},
        },
        None => {},
    }
    let p = suffixed_path(at, ".scheme");
    let mut m = quoted(p.as_str());
    push_str(&mut m, " must be `light` or `dark`");
    Err(invalid(m))
}

/// The weight a value spells, if any: an integer, or a string holding a
/// decimal `u16`.
pub open spec fn weight_value(v: Value) -> Option<int> {
    match v {
        Value::Int(n) => if 0 <= n <= 65535 {
            Some(n as int)
        } else {
            None
        },
        Value::String(s) => match crate::links::parse_u32(trim(s@)) {
            Some(n) => if n <= 65535 {
                Some(n as int)
            } else {
                None
            },
            None => None,
        },
        _ => None,
    }
}

/// `weight:` of a face: absent or null, or a whole number from 1 to 1000.
pub open spec fn weight_read(v: Option<Value>, at: Seq<char>) -> Read<Option<u16>> {
    match v {
        None => Ok(None),
        Some(Value::Null) => Ok(None),
        Some(x) => match weight_value(x) {
            Some(w) => if 1 <= w <= 1000 {
                Ok(Some(w as u16))
            } else {
                Err(quoted_path(at + ".weight"@) + " must be a whole number between 1 and 1000"@)
            },
            None => Err(quoted_path(at + ".weight"@) + " must be a whole number between 1 and 1000"@),
        },
    }
}

fn read_weight(v: Option<&Value>, at: &str) -> (r: Result<Option<u16>, ConfigErrorKind>)
    ensures
        match r {
            Ok(x) => weight_read(opt_val(v), at@) == Ok::<Option<u16>, Seq<char>>(x),
            Err(e) => e is Invalid && weight_read(opt_val(v), at@) == Err::<Option<u16>, Seq<char>>(msg(e)),
        },
{
    let x = match v {
        None => {
            return Ok(None);
        },
        Some(x) => x,
    };
    if x.is_null() {
        return Ok(None);
    }
    let w: Option<u16> = match x {
        Value::Int(n) => if 0 <= *n && *n <= 65535 {
            Some(*n as u16)
        } else {
            None
        },
        Value::String(s) => {
            let c = chars_of(s.as_str());
            let t = trim_v(c.as_slice());
            match crate::links::parse_u32_v(t.as_slice()) {
                Some(n) => if n <= 65535 {
                    Some(n as u16)
                } else {
                    None
                },
                None => None,
            }
        },
        _ => None,
    };
    match w {
        Some(w) => {
            if 1 <= w && w <= 1000 {
                return Ok(Some(w));
            }
        },
        None => {},
    }
    let p = suffixed_path(at, ".weight");
    let mut m = quoted(p.as_str());
    push_str(&mut m, " must be a whole number between 1 and 1000");
    Err(invalid(m))
}

/// A family list value: absent or null, or a string that parses.
pub open spec fn family_read(v: Option<Value>, at: Seq<char>) -> Read<Option<Seq<char>>> {
    match v {
        None => Ok(None),
        Some(Value::Null) => Ok(None),
        Some(x) => match str_of(x) {
            None => Err(quoted_path(at) + " must be a string"@),
            Some(raw) => match family_parse(raw, at) {
                Ok(css) => Ok(Some(css)),
                Err(m) => Err(m),
            },
        },
    }
}

pub open spec fn family_css(f: Option<FamilyList>) -> Option<Seq<char>> {
    match f {
        Some(x) => Some(x.css()),
        None => None,
    }
}

fn read_family(v: Option<&Value>, at: &str) -> (r: Result<Option<FamilyList>, ConfigErrorKind>)
    ensures
        match r {
            Ok(x) => family_read(opt_val(v), at@) == Ok::<Option<Seq<char>>, Seq<char>>(family_css(x)),
            Err(e) => e is Invalid && family_read(opt_val(v), at@) == Err::<Option<Seq<char>>, Seq<char>>(msg(e)),
        },
{
    let x = match v {
        None => {
            return Ok(None);
        },
        Some(x) => x,
    };
    if x.is_null() {
        return Ok(None);
    }
    match x.as_str() {
        None => {
            let mut m = quoted(at);
            push_str(&mut m, " must be a string");
            Err(invalid(m))
        },
        Some(raw) => match FamilyList::parse(raw, at) {
            Ok(f) => Ok(Some(f)),
            Err(e) => Err(e),
        },
    }
}

/// A color value: a string that parses.
pub open spec fn color_read(v: Value, at: Seq<char>) -> Read<Seq<char>> {
    match str_of(v) {
        None => Err(quoted_path(at) + " must be a string"@),
        Some(raw) => color_parse(raw, at),
    }
}

fn read_color(v: &Value, at: &str) -> (r: Result<Color, ConfigErrorKind>)
    ensures
        match r {
            Ok(c) => color_read(*v, at@) == Ok::<Seq<char>, Seq<char>>(c.css()),
            Err(e) => e is Invalid && color_read(*v, at@) == Err::<Seq<char>, Seq<char>>(msg(e)),
        },
{
    match v.as_str() {
        None => {
            let mut m = quoted(at);
            push_str(&mut m, " must be a string");
            Err(invalid(m))
        },
        Some(raw) => Color::parse(raw, at),
    }
}


// ---------------------------------------------------------------------------
// Faces and fonts.
// ---------------------------------------------------------------------------

/// What a face says.
pub ghost struct FileModel {
    pub family: Seq<char>,
    pub file: Seq<char>,
    pub format: FontFormat,
    pub weight: Option<u16>,
    pub style: FontStyle,
}

/// One self-hosted face: a file under `.okf/fonts` plus the `@font-face`
/// descriptors it is served with. Only the reader builds one.
#[derive(Clone, Debug, PartialEq, Eq)]
pub struct FontFile {
    family: String,
    file: String,
    format: FontFormat,
    weight: Option<u16>,
    style: FontStyle,
}

impl FontFile {
    pub closed spec fn model(&self) -> FileModel {
        FileModel {
            family: self.family@,
            file: self.file@,
            format: self.format,
            weight: self.weight,
            style: self.style,
        }
    }

    /// The `font-family` this face is served under.
    pub fn family(&self) -> (r: &str)
        ensures
            r@ == self.model().family,
    {
        self.family.as_str()
    }

    /// The file name: the same name under `.okf/fonts` and `assets/fonts/`.
    pub fn file(&self) -> (r: &str)
        ensures
            r@ == self.model().file,
    {
        self.file.as_str()
    }

    /// The `@font-face` format hint, from the file extension.
    pub fn format(&self) -> (r: FontFormat)
        ensures
            r == self.model().format,
    {
        self.format
    }

    /// The `font-weight` descriptor, if configured.
    pub fn weight(&self) -> (r: Option<u16>)
        ensures
            r == self.model().weight,
    {
        self.weight
    }

    /// The `font-style` descriptor; `normal` unless configured.
    pub fn style(&self) -> (r: FontStyle)
        ensures
            r == self.model().style,
    {
        self.style
    }
}

/// The keys of one face.
pub open spec fn file_keys() -> Seq<Seq<char>> {
    seq!["family"@, "file"@, "weight"@, "style"@]
}

/// One `site.fonts.files` entry at configuration path `at`.
pub open spec fn file_read(v: Value, at: Seq<char>) -> Read<FileModel> {
    match v {
        Value::Mapping(m) => match check_keys_spec(m@, at, file_keys()) {
            Some(e) => Err(e),
            None => match required_str_spec(m@, "family"@, at) {
                Err(e) => Err(e),
                Ok(family) => match required_str_spec(m@, "file"@, at) {
                    Err(e) => Err(e),
                    Ok(file) => match font_file_check(file, at + ".file"@) {
                        Err(e) => Err(e),
                        Ok(format) => match crate::css::family_name_error(family, at + ".family"@) {
                            Some(e) => Err(e),
                            None => match weight_read(lookup(m@, "weight"@), at) {
                                Err(e) => Err(e),
                                Ok(weight) => match style_read(lookup(m@, "style"@), at) {
                                    Err(e) => Err(e),
                                    Ok(style) => Ok(FileModel { family, file, format, weight, style }),
                                },
                            },
                        },
                    },
                },
            },
        },
        _ => Err(quoted_path(at) + " must be a mapping with `family` and `file`"@),
    }
}

impl FontFile {
    fn read(v: &Value, index: usize) -> (r: Result<FontFile, ConfigErrorKind>)
        ensures
            match r {
                Ok(f) => file_read(*v, indexed("site.fonts.files"@, index as nat)) == Ok::<FileModel, Seq<char>>(f.model()),
                Err(e) => e is Invalid && file_read(*v, indexed("site.fonts.files"@, index as nat)) == Err::<FileModel, Seq<char>>(msg(e)),
            },
    {
        let at = indexed_v("site.fonts.files", index);
        let m = match v {
            Value::Mapping(m) => m,
            _ => {
                let mut msgv = quoted(at.as_str());
                push_str(&mut msgv, " must be a mapping with `family` and `file`");
                return Err(invalid(msgv));
            },
        };
        let known: [&'static str; 4] = ["family", "file", "weight", "style"];
        proof {
            assert(str_views(known@) =~= file_keys());
        }
        check_keys(m, at.as_str(), &known)?;
        let family = required_str(m, "family", at.as_str())?;
        let file = required_str(m, "file", at.as_str())?;
        let file_at = suffixed_path(at.as_str(), ".file");
        let (file, format) = crate::css::font_file_name(file, file_at.as_str())?;
        let family_at = suffixed_path(at.as_str(), ".family");
        let family = crate::css::family_name(family, family_at.as_str())?;
        let weight = read_weight(get(m, "weight"), at.as_str())?;
        let style = read_style(get(m, "style"), at.as_str())?;
        Ok(FontFile { family: family.to_owned(), file, format, weight, style })
    }
}

/// What the fonts group says.
pub ghost struct FontsModel {
    pub body: Option<Seq<char>>,
    pub code: Option<Seq<char>>,
    pub files: Seq<FileModel>,
}

/// The `site.fonts` group: the two typography tokens plus the faces.
#[derive(Clone, Debug, PartialEq, Eq)]
pub struct Fonts {
    /// `site.fonts.body` — the `--font-body` override.
    pub body: Option<FamilyList>,
    /// `site.fonts.code` — the `--font-code` override.
    pub code: Option<FamilyList>,
    /// `site.fonts.files` — faces served from `assets/fonts/`.
    pub files: Vec<FontFile>,
}

pub open spec fn file_models(v: Seq<FontFile>) -> Seq<FileModel> {
    v.map_values(|f: FontFile| f.model())
}

pub open spec fn fonts_model(f: Fonts) -> FontsModel {
    FontsModel { body: family_css(f.body), code: family_css(f.code), files: file_models(f.files@) }
}

pub open spec fn empty_fonts() -> FontsModel {
    FontsModel { body: None, code: None, files: Seq::empty() }
}

/// The faces of a list, read in order; the first bad one decides.
pub open spec fn files_read(items: Seq<Value>, n: int) -> Read<Seq<FileModel>>
    decreases n,
{
    if n <= 0 {
        Ok(Seq::empty())
    } else {
        match files_read(items, n - 1) {
            Err(e) => Err(e),
            Ok(prev) => match file_read(items[n - 1], indexed("site.fonts.files"@, (n - 1) as nat)) {
                Err(e) => Err(e),
                Ok(f) => Ok(prev.push(f)),
            },
        }
    }
}

pub open spec fn fonts_keys() -> Seq<Seq<char>> {
    seq!["body"@, "code"@, "files"@]
}

/// The `site.fonts` mapping: faces first, then the body and code lists.
pub open spec fn fonts_read(v: Value) -> Read<FontsModel> {
    match mapping_or_empty_spec(v, "site.fonts"@) {
        Err(e) => Err(e),
        Ok(None) => Ok(empty_fonts()),
        Ok(Some(m)) => match check_keys_spec(m, "site.fonts"@, fonts_keys()) {
            Some(e) => Err(e),
            None => {
                let files: Read<Seq<FileModel>> = match lookup(m, "files"@) {
                    None => Ok(Seq::empty()),
                    Some(Value::Null) => Ok(Seq::empty()),
                    Some(Value::Sequence(items)) => files_read(items@, items@.len() as int),
                    Some(_) => Err("`site.fonts.files` must be a list"@),
                };
                match files {
                    Err(e) => Err(e),
                    Ok(files) => match family_read(lookup(m, "body"@), "site.fonts.body"@) {
                        Err(e) => Err(e),
                        Ok(body) => match family_read(lookup(m, "code"@), "site.fonts.code"@) {
                            Err(e) => Err(e),
                            Ok(code) => Ok(FontsModel { body, code, files }),
                        },
                    },
                }
            },
        },
    }
}

/// A face list's first error stays the answer as the list goes on.
pub proof fn lemma_files_read_err(items: Seq<Value>, k: int, n: int)
    requires
        0 <= k <= n,
        files_read(items, k) is Err,
    ensures
        files_read(items, n) == files_read(items, k),
    decreases n - k,
{
    if k < n {
        lemma_files_read_err(items, k, n - 1);
    }
}

fn read_files(items: &Vec<Value>) -> (r: Result<Vec<FontFile>, ConfigErrorKind>)
    ensures
        match r {
            Ok(fs) => files_read(items@, items@.len() as int) == Ok::<Seq<FileModel>, Seq<char>>(file_models(fs@)),
            Err(e) => e is Invalid && files_read(items@, items@.len() as int) == Err::<Seq<FileModel>, Seq<char>>(msg(e)),
        },
{
    let mut files: Vec<FontFile> = Vec::new();
    assert(file_models(files@) =~= Seq::<FileModel>::empty());
    let mut i: usize = 0;
    while i < items.len()
        invariant
            i <= items@.len(),
            files_read(items@, i as int) == Ok::<Seq<FileModel>, Seq<char>>(file_models(files@)),
        decreases items.len() - i,
    {
        match FontFile::read(&items[i], i) {
            Ok(f) => {
                let ghost before = file_models(files@);
                files.push(f);
                assert(file_models(files@) =~= before.push(f.model()));
            },
            Err(e) => {
                proof {
                    lemma_files_read_err(items@, i + 1, items@.len() as int);
                }
                return Err(e);
            },
        }
        i += 1;
    }
    Ok(files)
}

impl Fonts {
    /// No fonts configured.
    pub fn empty() -> (r: Fonts)
        ensures
            fonts_model(r) == empty_fonts(),
    {
        let r = Fonts { body: None, code: None, files: Vec::new() };
        assert(file_models(r.files@) =~= Seq::<FileModel>::empty());
        r
    }

    /// `true` when nothing about fonts is configured, in which case the
    /// build writes no `assets/fonts.css`.
    pub fn is_empty(&self) -> (r: bool)
        ensures
            r == (self.body is None && self.code is None && self.files@.len() == 0),
    {
        self.body.is_none() && self.code.is_none() && self.files.len() == 0
    }

    fn read(v: &Value) -> (r: Result<Fonts, ConfigErrorKind>)
        ensures
            match r {
                Ok(f) => fonts_read(*v) == Ok::<FontsModel, Seq<char>>(fonts_model(f)),
                Err(e) => e is Invalid && fonts_read(*v) == Err::<FontsModel, Seq<char>>(msg(e)),
            },
    {
        let m = match mapping_or_empty(v, "site.fonts")? {
            None => {
                return Ok(Fonts::empty());
            },
            Some(m) => m,
        };
        let known: [&'static str; 3] = ["body", "code", "files"];
        proof {
            assert(str_views(known@) =~= fonts_keys());
        }
        check_keys(m, "site.fonts", &known)?;
        let files: Vec<FontFile> = match get(m, "files") {
            None => Vec::new(),
            Some(x) => match x {
                Value::Null => Vec::new(),
                Value::Sequence(items) => read_files(items)?,
                _ => {
                    let mut msgv: Vec<char> = Vec::new();
                    push_str(&mut msgv, "`site.fonts.files` must be a list");
                    return Err(invalid(msgv));
                },
            },
        };
        proof {
            if files@.len() == 0 {
                assert(file_models(files@) =~= Seq::<FileModel>::empty());
            }
        }
        let body = read_family(get(m, "body"), "site.fonts.body")?;
        let code = read_family(get(m, "code"), "site.fonts.code")?;
        Ok(Fonts { body, code, files })
    }
}


// ---------------------------------------------------------------------------
// Themes.
// ---------------------------------------------------------------------------

/// The palette tokens a bundle theme may override, in emission order.
pub open spec fn theme_tokens() -> Seq<Seq<char>> {
    seq![
        "surface"@, "ink"@, "edge"@, "link"@, "shadow"@, "panel-bg"@, "code-bg"@, "mermaid-bg"@,
        "tier-unverified"@, "tier-machine"@, "tier-human"@, "status-draft"@, "status-stable"@,
        "status-deprecated"@, "status-other"@, "sev-info"@, "sev-warning"@, "sev-error"@,
        "danger"@,
    ]
}

/// The palette tokens a bundle theme may override, in emission order.
pub const THEME_TOKENS: [&'static str; 19] = [
    "surface",
    "ink",
    "edge",
    "link",
    "shadow",
    "panel-bg",
    "code-bg",
    "mermaid-bg",
    "tier-unverified",
    "tier-machine",
    "tier-human",
    "status-draft",
    "status-stable",
    "status-deprecated",
    "status-other",
    "sev-info",
    "sev-warning",
    "sev-error",
    "danger",
];

fn theme_token_list() -> (r: [&'static str; 19])
    ensures
        str_views(r@) == theme_tokens(),
{
    let r: [&'static str; 19] = [
        "surface",
        "ink",
        "edge",
        "link",
        "shadow",
        "panel-bg",
        "code-bg",
        "mermaid-bg",
        "tier-unverified",
        "tier-machine",
        "tier-human",
        "status-draft",
        "status-stable",
        "status-deprecated",
        "status-other",
        "sev-info",
        "sev-warning",
        "sev-error",
        "danger",
    ];
    assert(str_views(r@) =~= theme_tokens());
    r
}

/// What a theme says.
pub ghost struct ThemeModel {
    pub id: Seq<char>,
    pub label: Option<Seq<char>>,
    pub scheme: Scheme,
    pub colors: Seq<(Seq<char>, Seq<char>)>,
}

/// One bundle-defined palette: an id, the light/dark base it sits on, and
/// the tokens it overrides. Only the reader builds one.
#[derive(Clone, Debug, PartialEq, Eq)]
pub struct Theme {
    id: String,
    label: Option<String>,
    scheme: Scheme,
    colors: Vec<(&'static str, Color)>,
}

pub open spec fn color_models(v: Seq<(&'static str, Color)>) -> Seq<(Seq<char>, Seq<char>)> {
    v.map_values(|p: (&'static str, Color)| (p.0@, p.1.css()))
}

impl Theme {
    pub closed spec fn model(&self) -> ThemeModel {
        ThemeModel {
            id: self.id@,
            label: crate::links::opt_view(self.label),
            scheme: self.scheme,
            colors: color_models(self.colors@),
        }
    }

    /// The id: the `data-theme` value and what `site.theme` names.
    pub fn id(&self) -> (r: &str)
        ensures
            r@ == self.model().id,
    {
        self.id.as_str()
    }

    /// The picker's menu text: the label, or the id when there is none.
    pub fn label(&self) -> (r: &str)
        ensures
            r@ == match self.model().label {
                Some(l) => l,
                None => self.model().id,
            },
    {
        match &self.label {
            Some(l) => l.as_str(),
            None => self.id.as_str(),
        }
    }

    /// The light/dark base the palette overrides.
    pub fn scheme(&self) -> (r: Scheme)
        ensures
            r == self.model().scheme,
    {
        self.scheme
    }

    /// The overridden tokens and their colors, in token order.
    pub fn colors(&self) -> (r: &Vec<(&'static str, Color)>)
        ensures
            color_models(r@) == self.model().colors,
    {
        &self.colors
    }
}

/// The colors of a theme from token `k` on.
pub open spec fn colors_from(m: Seq<(Value, Value)>, at: Seq<char>, k: int) -> Read<Seq<(Seq<char>, Seq<char>)>>
    decreases 19 - k,
{
    if k < 0 || k >= 19 {
        Ok(Seq::empty())
    } else {
        let tok = theme_tokens()[k];
        let here: Read<Option<Seq<char>>> = match lookup(m, tok) {
            None => Ok(None),
            Some(Value::Null) => Ok(None),
            Some(v) => match color_read(v, at + seq!['.'] + tok) {
                Ok(c) => Ok(Some(c)),
                Err(e) => Err(e),
            },
        };
        match here {
            Err(e) => Err(e),
            Ok(h) => match colors_from(m, at, k + 1) {
                Err(e) => Err(e),
                Ok(rest) => match h {
                    Some(c) => Ok(seq![(tok, c)] + rest),
                    None => Ok(rest),
                },
            },
        }
    }
}

/// The optional `colors` mapping of the theme at `at`, in token order.
pub open spec fn colors_read(v: Option<Value>, at: Seq<char>) -> Read<Seq<(Seq<char>, Seq<char>)>> {
    match v {
        None => Ok(Seq::empty()),
        Some(x) => match mapping_or_empty_spec(x, at + ".colors"@) {
            Err(e) => Err(e),
            Ok(None) => Ok(Seq::empty()),
            Ok(Some(m)) => match check_keys_spec(m, at + ".colors"@, theme_tokens()) {
                Some(e) => Err(e),
                None => colors_from(m, at + ".colors"@, 0),
            },
        },
    }
}

/// No two entries of a mapping share a string key.
pub open spec fn distinct_keys(m: Seq<(Value, Value)>) -> bool {
    forall|i: int, j: int|
        #![trigger m[i], m[j]]
        0 <= i < m.len() && 0 <= j < m.len() && i != j && str_of(m[i].0) is Some ==> str_of(m[i].0) != str_of(m[j].0)
}

/// With distinct keys, the lookup of a key is the value of the one entry
/// that carries it.
pub proof fn lemma_lookup_entry(m: Seq<(Value, Value)>, key: Seq<char>, i: int)
    requires
        distinct_keys(m),
        0 <= i <= m.len(),
    ensures
        forall|j: int| i <= j < m.len() && str_of(m[j].0) == Some(key) ==> lookup_from(m, key, i) == Some(#[trigger] m[j].1),
        lookup_from(m, key, i) is Some ==> exists|j: int| i <= j < m.len() && str_of(m[j].0) == Some(key) && lookup_from(m, key, i) == Some(#[trigger] m[j].1),
    decreases m.len() - i,
{
    if i < m.len() {
        lemma_lookup_entry(m, key, i + 1);
        if str_of(m[i].0) == Some(key) {
            assert forall|j: int| i <= j < m.len() && str_of(m[j].0) == Some(key) implies lookup_from(m, key, i) == Some(#[trigger] m[j].1) by {
                if j != i {
                    assert(str_of(m[i].0) != str_of(m[j].0));
                }
            }
            assert(lookup_from(m, key, i) == Some(m[i].1));
        }
    }
}

/// A key found in one mapping is found, with the same value, in any
/// reordering of it.
pub proof fn lemma_lookup_reordered(m1: Seq<(Value, Value)>, m2: Seq<(Value, Value)>, key: Seq<char>)
    requires
        distinct_keys(m1),
        distinct_keys(m2),
        m1.to_multiset() == m2.to_multiset(),
        lookup(m1, key) is Some,
    ensures
        lookup(m2, key) == lookup(m1, key),
{
    broadcast use vstd::seq_lib::to_multiset_contains;

    lemma_lookup_entry(m1, key, 0);
    lemma_lookup_entry(m2, key, 0);
    let j = choose|j: int| 0 <= j < m1.len() && str_of(m1[j].0) == Some(key) && lookup_from(m1, key, 0) == Some(#[trigger] m1[j].1);
    let e = m1[j];
    assert(m1.contains(e));
    assert(m1.to_multiset().count(e) > 0);
    assert(m2.to_multiset().count(e) > 0);
    assert(m2.contains(e));
    let j2 = choose|j2: int| 0 <= j2 < m2.len() && m2[j2] == e;
    assert(m2[j2].1 == e.1);
}

/// Reading a theme's colors does not depend on how the author ordered the
/// mapping: two orderings of the same entries (string keys distinct) read
/// to the same colors, in token order.
pub proof fn lemma_colors_order_free(m1: Seq<(Value, Value)>, m2: Seq<(Value, Value)>, at: Seq<char>)
    requires
        distinct_keys(m1),
        distinct_keys(m2),
        m1.to_multiset() == m2.to_multiset(),
    ensures
        colors_from(m1, at, 0) == colors_from(m2, at, 0),
{
    assert forall|key: Seq<char>| lookup(m1, key) == lookup(m2, key) by {
        if lookup(m1, key) is Some {
            lemma_lookup_reordered(m1, m2, key);
        } else if lookup(m2, key) is Some {
            lemma_lookup_reordered(m2, m1, key);
        }
    }
    lemma_colors_from_lookups(m1, m2, at, 0);
}

pub proof fn lemma_colors_from_lookups(m1: Seq<(Value, Value)>, m2: Seq<(Value, Value)>, at: Seq<char>, k: int)
    requires
        forall|key: Seq<char>| lookup(m1, key) == lookup(m2, key),
    ensures
        colors_from(m1, at, k) == colors_from(m2, at, k),
    decreases 19 - k,
{
    if 0 <= k < 19 {
        lemma_colors_from_lookups(m1, m2, at, k + 1);
        assert(lookup(m1, theme_tokens()[k]) == lookup(m2, theme_tokens()[k]));
    }
}

pub open spec fn theme_keys() -> Seq<Seq<char>> {
    seq!["id"@, "label"@, "scheme"@, "colors"@]
}

/// The optional label of a theme.
pub open spec fn label_read(v: Option<Value>, at: Seq<char>) -> Read<Option<Seq<char>>> {
    match v {
        None => Ok(None),
        Some(Value::Null) => Ok(None),
        Some(x) => match str_of(x) {
            None => Err(quoted_path(at + ".label"@) + " must be a string"@),
            Some(l) => if trim(l).len() == 0 {
                Err(quoted_path(at + ".label"@) + " must not be empty"@)
            } else {
                Ok(Some(trim(l)))
            },
        },
    }
}

/// One `site.themes` entry: keys, id (not `auto`), label, id shape,
/// scheme, colors, checked in that order.
pub open spec fn theme_read(v: Value, at: Seq<char>) -> Read<ThemeModel> {
    match v {
        Value::Mapping(m) => match check_keys_spec(m@, at, theme_keys()) {
            Some(e) => Err(e),
            None => match required_str_spec(m@, "id"@, at) {
                Err(e) => Err(e),
                Ok(id) => if id == "auto"@ {
                    Err(quoted_path(at + ".id"@) + ": `auto` is reserved for the built-in follow-the-system entry; choose another id"@)
                } else {
                    match label_read(lookup(m@, "label"@), at) {
                        Err(e) => Err(e),
                        Ok(label) => if !theme_id_ok(id) {
                            Err(theme_id_message(id, at + ".id"@))
                        } else {
                            match scheme_read(lookup(m@, "scheme"@), at) {
                                Err(e) => Err(e),
                                Ok(scheme) => match colors_read(lookup(m@, "colors"@), at) {
                                    Err(e) => Err(e),
                                    Ok(colors) => Ok(ThemeModel { id, label, scheme, colors }),
                                },
                            }
                        },
                    }
                },
            },
        },
        _ => Err(quoted_path(at) + " must be a mapping with `id` and `scheme`"@),
    }
}

fn read_colors(v: Option<&Value>, at: &str) -> (r: Result<Vec<(&'static str, Color)>, ConfigErrorKind>)
    ensures
        match r {
            Ok(c) => colors_read(opt_val(v), at@) == Ok::<Seq<(Seq<char>, Seq<char>)>, Seq<char>>(color_models(c@)),
            Err(e) => e is Invalid && colors_read(opt_val(v), at@) == Err::<Seq<(Seq<char>, Seq<char>)>, Seq<char>>(msg(e)),
        },
{
    let x = match v {
        None => {
            let r: Vec<(&'static str, Color)> = Vec::new();
            assert(color_models(r@) =~= Seq::<(Seq<char>, Seq<char>)>::empty());
            return Ok(r);
        },
        Some(x) => x,
    };
    let at2 = suffixed_path(at, ".colors");
    let m = match mapping_or_empty(x, at2.as_str())? {
        None => {
            let r: Vec<(&'static str, Color)> = Vec::new();
            assert(color_models(r@) =~= Seq::<(Seq<char>, Seq<char>)>::empty());
            return Ok(r);
        },
        Some(m) => m,
    };
    let tokens = theme_token_list();
    check_keys(m, at2.as_str(), &tokens)?;
    let mut colors: Vec<(&'static str, Color)> = Vec::new();
    let mut k: usize = 0;
    while k < 19
        invariant
            k <= 19,
            str_views(tokens@) == theme_tokens(),
            at2@ == at@ + ".colors"@,
            colors_read(opt_val(v), at@) == colors_from(m@, at2@, 0),
            colors_from(m@, at2@, 0) == match colors_from(m@, at2@, k as int) {
                Ok(rest) => Ok::<Seq<(Seq<char>, Seq<char>)>, Seq<char>>(color_models(colors@) + rest),
                Err(e) => Err(e),
            },
        decreases 19 - k,
    {
        let tok = tokens[k];
        assert(tok@ == theme_tokens()[k as int]);
        match get(m, tok) {
            None => {},
            Some(val) => {
                if !val.is_null() {
                    let mut p = chars_of(at2.as_str());
                    p.push('.');
                    push_str(&mut p, tok);
                    let ps = string_of(p.as_slice());
                    match read_color(val, ps.as_str()) {
                        Ok(c) => {
                            let ghost before = color_models(colors@);
                            colors.push((tok, c));
                            proof {
                                assert(color_models(colors@) =~= before.push((tok@, c.css())));
                                assert forall|rest: Seq<(Seq<char>, Seq<char>)>| true implies before + (seq![(tok@, c.css())] + rest) =~= color_models(colors@) + rest by {}
                            }
                        },
                        Err(e) => {
                            proof {
                                assert(ps@ =~= at2@ + seq!['.'] + tok@);
                                assert(colors_from(m@, at2@, k as int) == Err::<Seq<(Seq<char>, Seq<char>)>, Seq<char>>(msg(e)));
                            }
                            return Err(e);
                        },
                    }
                }
            },
        }
        k += 1;
    }
    Ok(colors)
}

impl Theme {
    fn read(v: &Value, index: usize) -> (r: Result<Theme, ConfigErrorKind>)
        ensures
            match r {
                Ok(t) => theme_read(*v, indexed("site.themes"@, index as nat)) == Ok::<ThemeModel, Seq<char>>(t.model()),
                Err(e) => e is Invalid && theme_read(*v, indexed("site.themes"@, index as nat)) == Err::<ThemeModel, Seq<char>>(msg(e)),
            },
    {
        let at = indexed_v("site.themes", index);
        let m = match v {
            Value::Mapping(m) => m,
            _ => {
                let mut msgv = quoted(at.as_str());
                push_str(&mut msgv, " must be a mapping with `id` and `scheme`");
                return Err(invalid(msgv));
            },
        };
        let known: [&'static str; 4] = ["id", "label", "scheme", "colors"];
        proof {
            assert(str_views(known@) =~= theme_keys());
        }
        check_keys(m, at.as_str(), &known)?;
        let id = required_str(m, "id", at.as_str())?;
        let id_at = suffixed_path(at.as_str(), ".id");
        if str_is(id, AUTO_THEME_ID) {
            let mut msgv = quoted(id_at.as_str());
            push_str(&mut msgv, ": `auto` is reserved for the built-in follow-the-system entry; choose another id");
            return Err(invalid(msgv));
        }
        let label_at = suffixed_path(at.as_str(), ".label");
        let label: Option<String> = match get(m, "label") {
            None => None,
            Some(x) => {
                if x.is_null() {
                    None
                } else {
                    match x.as_str() {
                        None => {
                            let mut msgv = quoted(label_at.as_str());
                            push_str(&mut msgv, " must be a string");
                            return Err(invalid(msgv));
                        },
                        Some(l) => {
                            let lc = chars_of(l);
                            let t = trim_v(lc.as_slice());
                            if t.len() == 0 {
                                let mut msgv = quoted(label_at.as_str());
                                push_str(&mut msgv, " must not be empty");
                                return Err(invalid(msgv));
                            }
                            Some(string_of(t.as_slice()))
                        },
                    }
                }
            },
        };
        let id = crate::css::theme_id(id, id_at.as_str())?;
        let scheme = read_scheme(get(m, "scheme"), at.as_str())?;
        let colors = read_colors(get(m, "colors"), at.as_str())?;
        Ok(Theme { id: id.to_owned(), label, scheme, colors })
    }
}


/// The themes of a list, read in order; the first bad one decides.
pub open spec fn themes_list(items: Seq<Value>, n: int) -> Read<Seq<ThemeModel>>
    decreases n,
{
    if n <= 0 {
        Ok(Seq::empty())
    } else {
        match themes_list(items, n - 1) {
            Err(e) => Err(e),
            Ok(prev) => match theme_read(items[n - 1], indexed("site.themes"@, (n - 1) as nat)) {
                Err(e) => Err(e),
                Ok(t) => Ok(prev.push(t)),
            },
        }
    }
}

/// A list's first error stays the answer as the list goes on.
pub proof fn lemma_themes_list_err(items: Seq<Value>, k: int, n: int)
    requires
        0 <= k <= n,
        themes_list(items, k) is Err,
    ensures
        themes_list(items, n) == themes_list(items, k),
    decreases n - k,
{
    if k < n {
        lemma_themes_list_err(items, k, n - 1);
    }
}

/// The first index from `i` on whose id an earlier theme already has.
pub open spec fn first_duplicate(ts: Seq<ThemeModel>, i: int) -> Option<int>
    decreases ts.len() - i,
{
    if i < 0 || i >= ts.len() {
        None
    } else if exists|j: int| 0 <= j < i && ts[j].id == ts[i].id {
        Some(i)
    } else {
        first_duplicate(ts, i + 1)
    }
}

/// The message for a theme whose id an earlier one already took.
pub open spec fn duplicate_message(i: nat, id: Seq<char>) -> Seq<char> {
    quoted_path(indexed("site.themes"@, i)) + ": duplicate theme id `"@ + id + "`; each id names one palette"@
}

/// The `site.themes` list: each entry read in order, then no id twice.
pub open spec fn themes_read(v: Value) -> Read<Seq<ThemeModel>> {
    match v {
        Value::Null => Ok(Seq::empty()),
        Value::Sequence(items) => match themes_list(items@, items@.len() as int) {
            Err(e) => Err(e),
            Ok(ts) => match first_duplicate(ts, 0) {
                Some(i) => Err(duplicate_message(i as nat, ts[i].id)),
                None => Ok(ts),
            },
        },
        _ => Err("`site.themes` must be a list"@),
    }
}

/// Every theme a list reads has an id of the theme-id shape, and not
/// `auto`.
pub proof fn lemma_themes_list_ids(items: Seq<Value>, n: int)
    requires
        themes_list(items, n) is Ok,
    ensures
        forall|k: int| 0 <= k < themes_list(items, n)->Ok_0.len() ==> {
            let id = (#[trigger] themes_list(items, n)->Ok_0[k]).id;
            theme_id_ok(id) && id != AUTO_THEME_ID@
        },
    decreases n,
{
    if n > 0 {
        lemma_themes_list_ids(items, n - 1);
        let prev = themes_list(items, n - 1)->Ok_0;
        let t = theme_read(items[n - 1], indexed("site.themes"@, (n - 1) as nat))->Ok_0;
        assert(themes_list(items, n)->Ok_0 == prev.push(t));
        assert forall|k: int| 0 <= k < prev.len() + 1 implies {
            let id = (#[trigger] prev.push(t)[k]).id;
            theme_id_ok(id) && id != AUTO_THEME_ID@
        } by {
            if k < prev.len() {
                assert(prev.push(t)[k] == prev[k]);
            }
        }
    }
}

/// No index from `i` on repeats an earlier id.
pub proof fn lemma_no_duplicate(ts: Seq<ThemeModel>, i: int)
    requires
        0 <= i,
        first_duplicate(ts, i) is None,
    ensures
        forall|a: int, b: int| 0 <= a < b < ts.len() && i <= b ==> #[trigger] ts[a].id != #[trigger] ts[b].id,
    decreases ts.len() - i,
{
    if i < ts.len() {
        lemma_no_duplicate(ts, i + 1);
        assert forall|a: int, b: int| 0 <= a < b < ts.len() && i <= b implies #[trigger] ts[a].id != #[trigger] ts[b].id by {
            if b == i && ts[a].id == ts[b].id {
                assert(exists|j: int| 0 <= j < i && ts[j].id == ts[i].id);
            }
        }
    }
}

/// The themes a configuration defines can all be named safely: every id
/// is a lowercase-letter-led run of lowercase letters, digits and `-` (so
/// it can neither close the `[data-theme="…"]` selector nor a JavaScript
/// string), none is `auto`, and no two are the same.
pub proof fn lemma_theme_ids_safe(v: Value)
    requires
        themes_read(v) is Ok,
    ensures
        forall|k: int| 0 <= k < themes_read(v)->Ok_0.len() ==> {
            let id = (#[trigger] themes_read(v)->Ok_0[k]).id;
            crate::site::safe_id(id) && id != AUTO_THEME_ID@
        },
        forall|a: int, b: int| 0 <= a < b < themes_read(v)->Ok_0.len()
            ==> #[trigger] themes_read(v)->Ok_0[a].id != #[trigger] themes_read(v)->Ok_0[b].id,
{
    match v {
        Value::Sequence(items) => {
            lemma_themes_list_ids(items@, items@.len() as int);
            let ts = themes_list(items@, items@.len() as int)->Ok_0;
            lemma_no_duplicate(ts, 0);
            assert forall|k: int| 0 <= k < ts.len() implies {
                let id = (#[trigger] ts[k]).id;
                crate::site::safe_id(id) && id != AUTO_THEME_ID@
            } by {
                let id = ts[k].id;
                assert(theme_id_ok(id));
                assert forall|i: int| 0 <= i < id.len() implies crate::site::safe_id_char(#[trigger] id[i]) by {
                    if i == 0 {
                    }
                }
            }
        },
        _ => {},
    }
}

/// The `site.themes` list: the palettes a bundle adds to the built-in
/// catalog, in the order the file declares them. No two share an id.
#[derive(Clone, Debug, PartialEq, Eq)]
pub struct Themes(Vec<Theme>);

pub open spec fn theme_models(v: Seq<Theme>) -> Seq<ThemeModel> {
    v.map_values(|t: Theme| t.model())
}

impl View for Themes {
    type V = Seq<ThemeModel>;

    closed spec fn view(&self) -> Seq<ThemeModel> {
        theme_models(self.0@)
    }
}

/// One stylesheet declaration: `  --token: color;`.
pub open spec fn declaration(c: (Seq<char>, Seq<char>)) -> Seq<char> {
    "  --"@ + c.0 + ": "@ + c.1 + ";\n"@
}

pub open spec fn declarations(cs: Seq<(Seq<char>, Seq<char>)>) -> Seq<char>
    decreases cs.len(),
{
    if cs.len() == 0 {
        Seq::empty()
    } else {
        declarations(cs.drop_last()) + declaration(cs.last())
    }
}

/// A theme's block in `theme.css`: none for a theme that only picks a
/// scheme.
pub open spec fn theme_block(t: ThemeModel) -> Seq<char> {
    if t.colors.len() == 0 {
        Seq::empty()
    } else {
        "\n:root[data-theme=\""@ + t.id + "\"] {\n"@ + declarations(t.colors) + "}\n"@
    }
}

pub open spec fn theme_blocks(ts: Seq<ThemeModel>) -> Seq<char>
    decreases ts.len(),
{
    if ts.len() == 0 {
        Seq::empty()
    } else {
        theme_blocks(ts.drop_last()) + theme_block(ts.last())
    }
}

/// The banner both generated stylesheets open with.
pub const GENERATED_HEADER: &'static str = "/* Generated by `okf site` from `.okf/config.yaml`. Do not edit:\n   rebuild the site instead. Linked after the inline stylesheet, so\n   these token overrides win the cascade. */\n";

fn read_themes(items: &Vec<Value>) -> (r: Result<Vec<Theme>, ConfigErrorKind>)
    ensures
        match r {
            Ok(ts) => themes_list(items@, items@.len() as int) == Ok::<Seq<ThemeModel>, Seq<char>>(theme_models(ts@)),
            Err(e) => e is Invalid && themes_list(items@, items@.len() as int) == Err::<Seq<ThemeModel>, Seq<char>>(msg(e)),
        },
{
    let mut themes: Vec<Theme> = Vec::new();
    assert(theme_models(themes@) =~= Seq::<ThemeModel>::empty());
    let mut i: usize = 0;
    while i < items.len()
        invariant
            i <= items@.len(),
            themes_list(items@, i as int) == Ok::<Seq<ThemeModel>, Seq<char>>(theme_models(themes@)),
        decreases items.len() - i,
    {
        match Theme::read(&items[i], i) {
            Ok(t) => {
                let ghost before = theme_models(themes@);
                themes.push(t);
                assert(theme_models(themes@) =~= before.push(t.model()));
            },
            Err(e) => {
                proof {
                    lemma_themes_list_err(items@, i + 1, items@.len() as int);
                }
                return Err(e);
            },
        }
        i += 1;
    }
    Ok(themes)
}

impl Themes {
    /// No themes.
    pub fn empty() -> (r: Themes)
        ensures
            r@ == Seq::<ThemeModel>::empty(),
    {
        let r = Themes(Vec::new());
        assert(r@ =~= Seq::<ThemeModel>::empty());
        r
    }

    /// `true` when the bundle defines no themes, in which case the build
    /// writes no `assets/theme.css`.
    pub fn is_empty(&self) -> (r: bool)
        ensures
            r == (self@.len() == 0),
    {
        self.0.len() == 0
    }

    /// How many themes the bundle defines.
    pub fn len(&self) -> (r: usize)
        ensures
            r == self@.len(),
    {
        self.0.len()
    }

    /// The themes, in configuration order: the order the picker lists
    /// them in, after the built-in entries.
    pub fn iter(&self) -> (r: &[Theme])
        ensures
            theme_models(r@) == self@,
    {
        self.0.as_slice()
    }

    /// The generated `assets/theme.css`: one `:root[data-theme="…"]` block
    /// per theme that overrides at least one token, declarations in token
    /// order.
    pub fn to_css(&self) -> (r: String)
        ensures
            r@ == GENERATED_HEADER@ + theme_blocks(self@),
    {
        let mut css: Vec<char> = Vec::new();
        push_str(&mut css, GENERATED_HEADER);
        let mut i: usize = 0;
        while i < self.0.len()
            invariant
                i <= self.0@.len(),
                css@ == GENERATED_HEADER@ + theme_blocks(theme_models(self.0@).subrange(0, i as int)),
            decreases self.0.len() - i,
        {
            let t = &self.0[i];
            let ghost before = css@;
            let ghost tm = t.model();
            if t.colors.len() > 0 {
                push_str(&mut css, "\n:root[data-theme=\"");
                push_str(&mut css, t.id.as_str());
                push_str(&mut css, "\"] {\n");
                let ghost head = css@;
                let mut k: usize = 0;
                while k < t.colors.len()
                    invariant
                        k <= t.colors@.len(),
                        tm == t.model(),
                        css@ == head + declarations(color_models(t.colors@).subrange(0, k as int)),
                    decreases t.colors.len() - k,
                {
                    let (tok, c) = &t.colors[k];
                    let ghost d = css@;
                    push_str(&mut css, "  --");
                    push_str(&mut css, *tok);
                    push_str(&mut css, ": ");
                    push_str(&mut css, c.as_css());
                    push_str(&mut css, ";\n");
                    proof {
                        let cs = color_models(t.colors@);
                        assert(cs.subrange(0, k + 1).drop_last() =~= cs.subrange(0, k as int));
                        assert(cs[k as int] == (tok@, c.css()));
                        assert(css@ =~= d + declaration(cs[k as int]));
                    }
                    k += 1;
                }
                push_str(&mut css, "}\n");
                proof {
                    assert(color_models(t.colors@).subrange(0, t.colors@.len() as int) =~= tm.colors);
                    assert(css@ =~= before + theme_block(tm));
                }
            } else {
                assert(css@ =~= before + theme_block(tm));
            }
            proof {
                let ms = theme_models(self.0@);
                assert(ms.subrange(0, i + 1).drop_last() =~= ms.subrange(0, i as int));
                assert(ms[i as int] == tm);
            }
            i += 1;
        }
        proof {
            assert(theme_models(self.0@).subrange(0, self.0@.len() as int) =~= self@);
        }
        string_of(css.as_slice())
    }

    fn read(v: &Value) -> (r: Result<Themes, ConfigErrorKind>)
        ensures
            match r {
                Ok(t) => themes_read(*v) == Ok::<Seq<ThemeModel>, Seq<char>>(t@),
                Err(e) => e is Invalid && themes_read(*v) == Err::<Seq<ThemeModel>, Seq<char>>(msg(e)),
            },
    {
        let items = match v {
            Value::Null => {
                return Ok(Themes::empty());
            },
            Value::Sequence(items) => items,
            _ => {
                let mut msgv: Vec<char> = Vec::new();
                push_str(&mut msgv, "`site.themes` must be a list");
                return Err(invalid(msgv));
            },
        };
        let themes = read_themes(items)?;
        let ghost ts = theme_models(themes@);
        let mut i: usize = 0;
        while i < themes.len()
            invariant
                i <= themes@.len(),
                ts == theme_models(themes@),
                *v == Value::Sequence(*items),
                themes_list(items@, items@.len() as int) == Ok::<Seq<ThemeModel>, Seq<char>>(ts),
                first_duplicate(ts, 0) == first_duplicate(ts, i as int),
            decreases themes.len() - i,
        {
            let mut j: usize = 0;
            while j < i
                invariant
                    i < themes@.len(),
                    j <= i,
                    ts == theme_models(themes@),
                    *v == Value::Sequence(*items),
                    themes_list(items@, items@.len() as int) == Ok::<Seq<ThemeModel>, Seq<char>>(ts),
                    first_duplicate(ts, 0) == first_duplicate(ts, i as int),
                    forall|q: int| 0 <= q < j ==> ts[q].id != ts[i as int].id,
                decreases i - j,
            {
                if str_is(themes[j].id.as_str(), themes[i].id.as_str()) {
                    let ghost jj = j as int;
                    assert(0 <= jj < i && ts[jj].id == ts[i as int].id);
                    let mut msgv = quoted(indexed_v("site.themes", i).as_str());
                    push_str(&mut msgv, ": duplicate theme id `");
                    push_str(&mut msgv, themes[i].id.as_str());
                    push_str(&mut msgv, "`; each id names one palette");
                    proof {
                        assert(ts[i as int] == themes@[i as int].model());
                        assert(first_duplicate(ts, i as int) == Some(i as int));
                        assert(msgv@ =~= duplicate_message(i as nat, ts[i as int].id));
                    }
                    return Err(invalid(msgv));
                }
                j += 1;
            }
            i += 1;
        }
        Ok(Themes(themes))
    }
}


/// The `font-weight` line of a face, when it names one.
pub open spec fn weight_line(w: Option<u16>) -> Seq<char> {
    match w {
        Some(n) => "  font-weight: "@ + decimal(n as nat) + ";\n"@,
        None => Seq::empty(),
    }
}

/// A face's `@font-face` rule in `fonts.css`.
pub open spec fn face_rule(f: FileModel) -> Seq<char> {
    "\n@font-face {\n  font-family: \""@ + f.family + "\";\n  src: url(\"fonts/"@ + f.file
        + "\") format(\""@ + crate::css::format_name(f.format) + "\");\n  font-style: "@
        + crate::css::style_name(f.style) + ";\n"@ + weight_line(f.weight)
        + "  font-display: swap;\n}\n"@
}

pub open spec fn face_rules(fs: Seq<FileModel>) -> Seq<char>
    decreases fs.len(),
{
    if fs.len() == 0 {
        Seq::empty()
    } else {
        face_rules(fs.drop_last()) + face_rule(fs.last())
    }
}

/// One typography token override line.
pub open spec fn token_line(name: Seq<char>, f: Option<Seq<char>>) -> Seq<char> {
    match f {
        Some(css) => "  --"@ + name + ": "@ + css + ";\n"@,
        None => Seq::empty(),
    }
}

/// The `:root` block overriding the typography tokens, when either is set.
pub open spec fn root_block(body: Option<Seq<char>>, code: Option<Seq<char>>) -> Seq<char> {
    if body is None && code is None {
        Seq::empty()
    } else {
        "\n:root {\n"@ + token_line("font-body"@, body) + token_line("font-code"@, code) + "}\n"@
    }
}

/// The whole of `fonts.css`.
pub open spec fn fonts_css(m: FontsModel) -> Seq<char> {
    GENERATED_HEADER@ + face_rules(m.files) + root_block(m.body, m.code)
}

fn push_face(css: &mut Vec<char>, f: &FontFile)
    ensures
        final(css)@ == old(css)@ + face_rule(f.model()),
{
    let ghost c0 = css@;
    push_str(css, "\n@font-face {\n  font-family: \"");
    push_str(css, f.family.as_str());
    push_str(css, "\";\n  src: url(\"fonts/");
    push_str(css, f.file.as_str());
    push_str(css, "\") format(\"");
    push_str(css, f.format.as_css());
    push_str(css, "\");\n  font-style: ");
    push_str(css, f.style.as_css());
    push_str(css, ";\n");
    let ghost c1 = css@;
    match f.weight {
        Some(w) => {
            push_str(css, "  font-weight: ");
            let d = decimal_v(w as usize);
            push_all(css, d.as_slice());
            push_str(css, ";\n");
        },
        None => {},
    }
    assert(css@ =~= c1 + weight_line(f.weight));
    push_str(css, "  font-display: swap;\n}\n");
    assert(css@ =~= c0 + face_rule(f.model()));
}

fn push_token_line(css: &mut Vec<char>, name: &str, f: &Option<FamilyList>)
    ensures
        final(css)@ == old(css)@ + token_line(name@, family_css(*f)),
{
    match f {
        Some(b) => {
            let ghost c0 = css@;
            push_str(css, "  --");
            push_str(css, name);
            push_str(css, ": ");
            push_str(css, b.as_css());
            push_str(css, ";\n");
            assert(css@ =~= c0 + token_line(name@, family_css(*f)));
        },
        None => {
            assert(css@ =~= old(css)@ + token_line(name@, family_css(*f)));
        },
    }
}

impl Fonts {
    /// The generated `assets/fonts.css`: an `@font-face` per configured
    /// file followed by a `:root` block overriding the typography tokens.
    pub fn to_css(&self) -> (r: String)
        ensures
            r@ == fonts_css(fonts_model(*self)),
    {
        let mut css: Vec<char> = Vec::new();
        push_str(&mut css, GENERATED_HEADER);
        let mut i: usize = 0;
        while i < self.files.len()
            invariant
                i <= self.files@.len(),
                css@ == GENERATED_HEADER@ + face_rules(file_models(self.files@).subrange(0, i as int)),
            decreases self.files.len() - i,
        {
            let ghost before = css@;
            push_face(&mut css, &self.files[i]);
            proof {
                let ms = file_models(self.files@);
                assert(ms.subrange(0, i + 1).drop_last() =~= ms.subrange(0, i as int));
                assert(ms[i as int] == self.files@[i as int].model());
                assert(css@ =~= before + face_rule(ms[i as int]));
            }
            i += 1;
        }
        proof {
            assert(file_models(self.files@).subrange(0, self.files@.len() as int) =~= file_models(self.files@));
        }
        let ghost faces = css@;
        if self.body.is_some() || self.code.is_some() {
            push_str(&mut css, "\n:root {\n");
            push_token_line(&mut css, "font-body", &self.body);
            push_token_line(&mut css, "font-code", &self.code);
            push_str(&mut css, "}\n");
            proof {
                reveal_strlit("font-body");
                reveal_strlit("font-code");
            }
        }
        assert(css@ =~= faces + root_block(family_css(self.body), family_css(self.code)));
        string_of(css.as_slice())
    }
}


// ---------------------------------------------------------------------------
// The whole file.
// ---------------------------------------------------------------------------

/// The configuration file's bundle-relative path.
pub const CONFIG_PATH: &'static str = ".okf/config.yaml";

/// The bundle-relative directory holding self-hosted font files.
pub const FONTS_DIR: &'static str = ".okf/fonts";

/// `root` joined with a relative `tail`, one `/` between them.
pub open spec fn joined_path(root: Seq<char>, tail: Seq<char>) -> Seq<char> {
    if root.len() == 0 {
        tail
    } else if root.last() == '/' {
        root + tail
    } else {
        root + seq!['/'] + tail
    }
}

fn join_path(root: &str, tail: &str) -> (r: String)
    ensures
        r@ == joined_path(root@, tail@),
{
    let mut v = chars_of(root);
    if v.len() > 0 && v[v.len() - 1] != '/' {
        v.push('/');
    }
    push_str(&mut v, tail);
    string_of(v.as_slice())
}

/// The configuration file inside the bundle at `root`.
pub fn config_path(root: &str) -> (r: String)
    ensures
        r@ == joined_path(root@, CONFIG_PATH@),
{
    join_path(root, CONFIG_PATH)
}

/// The self-hosted font directory inside the bundle at `root`.
pub fn fonts_dir(root: &str) -> (r: String)
    ensures
        r@ == joined_path(root@, FONTS_DIR@),
{
    join_path(root, FONTS_DIR)
}

/// Why a bundle's `.okf/config.yaml` could not be used.
#[derive(Clone, Debug)]
pub struct ConfigError {
    path: String,
    kind: ConfigErrorKind,
}

impl ConfigError {
    pub closed spec fn path_view(&self) -> Seq<char> {
        self.path@
    }

    pub closed spec fn kind_view(&self) -> ConfigErrorKind {
        self.kind
    }

    /// A configuration error at `path`.
    pub fn new(path: String, kind: ConfigErrorKind) -> (r: ConfigError)
        ensures
            r.path_view() == path@,
            r.kind_view() == kind,
    {
        ConfigError { path, kind }
    }

    /// A configuration error for the bundle at `root`, for problems found
    /// after parsing.
    pub fn invalid(root: &str, message: &str) -> (r: ConfigError)
        ensures
            r.path_view() == joined_path(root@, CONFIG_PATH@),
            r.kind_view() matches ConfigErrorKind::Invalid(m) && m@ == message@,
    {
        ConfigError { path: config_path(root), kind: ConfigErrorKind::Invalid(message.to_owned()) }
    }

    /// The configuration file the problem was found in.
    pub fn path(&self) -> (r: &str)
        ensures
            r@ == self.path_view(),
    {
        self.path.as_str()
    }

    /// What is wrong with it.
    pub fn kind(&self) -> (r: &ConfigErrorKind)
        ensures
            *r == self.kind_view(),
    {
        &self.kind
    }
}

/// What a configuration says.
pub ghost struct SiteModel {
    pub title: Option<Seq<char>>,
    pub fonts: FontsModel,
    pub theme: Option<Seq<char>>,
    pub themes: Seq<ThemeModel>,
    pub notes: Seq<Seq<char>>,
}

/// A bundle's `.okf/config.yaml`, reduced to what the site build consumes.
#[derive(Clone, Debug, PartialEq, Eq)]
pub struct SiteConfig {
    /// The file this configuration came from; `None` when the bundle has
    /// no `.okf/config.yaml`.
    pub path: Option<String>,
    /// `site.title`: the header title.
    pub title: Option<String>,
    /// `site.fonts`: the typography token overrides and self-hosted faces.
    pub fonts: Fonts,
    /// `site.theme`: the theme a first-time visitor gets; [`AUTO_THEME_ID`]
    /// follows the system.
    pub theme: Option<String>,
    /// `site.themes`: the palettes this bundle adds to the catalog.
    pub themes: Themes,
    /// One note per section the file carries that the build does not know.
    pub notes: Vec<String>,
}

pub open spec fn string_views(v: Seq<String>) -> Seq<Seq<char>> {
    v.map_values(|s: String| s@)
}

pub open spec fn site_model(c: SiteConfig) -> SiteModel {
    SiteModel {
        title: crate::links::opt_view(c.title),
        fonts: fonts_model(c.fonts),
        theme: crate::links::opt_view(c.theme),
        themes: c.themes@,
        notes: string_views(c.notes@),
    }
}

/// A configuration that configures nothing.
pub open spec fn default_site() -> SiteModel {
    SiteModel { title: None, fonts: empty_fonts(), theme: None, themes: Seq::empty(), notes: Seq::empty() }
}

impl Default for SiteConfig {
    fn default() -> (r: SiteConfig)
        ensures
            r.path is None,
            site_model(r) == default_site(),
    {
        let r = SiteConfig {
            path: None,
            title: None,
            fonts: Fonts::empty(),
            theme: None,
            themes: Themes::empty(),
            notes: Vec::new(),
        };
        assert(string_views(r.notes@) =~= Seq::<Seq<char>>::empty());
        r
    }
}

/// The settings a configuration supplies, in schema order.
pub open spec fn settings_of(m: SiteModel) -> Seq<Seq<char>> {
    (if m.title is Some { seq!["title"@] } else { Seq::empty() })
        + (if m.fonts.body is Some { seq!["fonts.body"@] } else { Seq::empty() })
        + (if m.fonts.code is Some { seq!["fonts.code"@] } else { Seq::empty() })
        + (if m.fonts.files.len() > 0 { seq!["fonts.files"@] } else { Seq::empty() })
        + (if m.theme is Some { seq!["theme"@] } else { Seq::empty() })
        + (if m.themes.len() > 0 { seq!["themes"@] } else { Seq::empty() })
}

pub open spec fn site_keys() -> Seq<Seq<char>> {
    seq!["title"@, "fonts"@, "theme"@, "themes"@]
}

/// `site.title`: any scalar's text, not blank.
pub open spec fn title_read(v: Option<Value>, prior: Option<Seq<char>>) -> Read<Option<Seq<char>>> {
    match v {
        None => Ok(prior),
        Some(Value::Null) => Ok(prior),
        Some(x) => match display_of(x) {
            None => Err("`site.title` must be a string"@),
            Some(t) => if trim(t).len() == 0 {
                Err("`site.title` must not be empty"@)
            } else {
                Ok(Some(t))
            },
        },
    }
}

/// `site.theme`: `auto` or a theme id, trimmed.
pub open spec fn default_theme_read(v: Option<Value>, prior: Option<Seq<char>>) -> Read<Option<Seq<char>>> {
    match v {
        None => Ok(prior),
        Some(Value::Null) => Ok(prior),
        Some(x) => match str_of(x) {
            None => Err("`site.theme` must be a string"@),
            Some(raw) => {
                let t = trim(raw);
                if t.len() == 0 {
                    Err("`site.theme` must not be empty"@)
                } else if t != AUTO_THEME_ID@ && !theme_id_ok(t) {
                    Err(theme_id_message(t, "site.theme"@))
                } else {
                    Ok(Some(t))
                }
            },
        },
    }
}

/// Reading one `site:` section into `c`: title, fonts, theme, themes, in
/// that order; a setting the section leaves out keeps its prior value.
pub open spec fn site_step(c: SiteModel, v: Value) -> Read<SiteModel> {
    match mapping_or_empty_spec(v, "site"@) {
        Err(e) => Err(e),
        Ok(None) => Ok(c),
        Ok(Some(m)) => match check_keys_spec(m, "site"@, site_keys()) {
            Some(e) => Err(e),
            None => match title_read(lookup(m, "title"@), c.title) {
                Err(e) => Err(e),
                Ok(title) => {
                    let fonts: Read<FontsModel> = match lookup(m, "fonts"@) {
                        None => Ok(c.fonts),
                        Some(f) => fonts_read(f),
                    };
                    match fonts {
                        Err(e) => Err(e),
                        Ok(fonts) => match default_theme_read(lookup(m, "theme"@), c.theme) {
                            Err(e) => Err(e),
                            Ok(theme) => {
                                let themes: Read<Seq<ThemeModel>> = match lookup(m, "themes"@) {
                                    None => Ok(c.themes),
                                    Some(t) => themes_read(t),
                                };
                                match themes {
                                    Err(e) => Err(e),
                                    Ok(themes) => Ok(SiteModel { title, fonts, theme, themes, notes: c.notes }),
                                }
                            },
                        },
                    }
                },
            },
        },
    }
}

/// The note for a section the build does not know.
pub open spec fn section_note(name: Seq<char>) -> Seq<char> {
    CONFIG_PATH@ + ": ignoring unknown section `"@ + name + "`"@
}

/// The first `n` sections, read in file order.
pub open spec fn sections_read(m: Seq<(Value, Value)>, n: int) -> Read<SiteModel>
    decreases n,
{
    if n <= 0 {
        Ok(default_site())
    } else {
        match sections_read(m, n - 1) {
            Err(e) => Err(e),
            Ok(c) => match str_of(m[n - 1].0) {
                Some(name) => if name == "site"@ {
                    site_step(c, m[n - 1].1)
                } else {
                    Ok(SiteModel { notes: c.notes.push(section_note(name)), ..c })
                },
                None => Ok(c),
            },
        }
    }
}

/// A whole document: nothing, or a mapping of sections with string names.
pub open spec fn document_read(v: Value) -> Read<SiteModel> {
    match v {
        Value::Null => Ok(default_site()),
        Value::Mapping(m) => if has_non_string_key(m@) {
            Err("section names must be strings"@)
        } else {
            sections_read(m@, m@.len() as int)
        },
        _ => Err("the document must be a mapping of sections (e.g. `site:`)"@),
    }
}

/// A section list's first error stays the answer as the list goes on.
pub proof fn lemma_sections_read_err(m: Seq<(Value, Value)>, k: int, n: int)
    requires
        0 <= k <= n,
        sections_read(m, k) is Err,
    ensures
        sections_read(m, n) == sections_read(m, k),
    decreases n - k,
{
    if k < n {
        lemma_sections_read_err(m, k, n - 1);
    }
}

impl SiteConfig {
    /// Which `site:` settings this configuration supplies, in schema order:
    /// `title`, `fonts.body`, `fonts.code`, `fonts.files`, `theme`, `themes`.
    pub fn settings(&self) -> (r: Vec<&'static str>)
        ensures
            str_views(r@) == settings_of(site_model(*self)),
    {
        let mut s: Vec<&'static str> = Vec::new();
        if self.title.is_some() {
            s.push("title");
        }
        if self.fonts.body.is_some() {
            s.push("fonts.body");
        }
        if self.fonts.code.is_some() {
            s.push("fonts.code");
        }
        if self.fonts.files.len() > 0 {
            s.push("fonts.files");
        }
        if self.theme.is_some() {
            s.push("theme");
        }
        if !self.themes.is_empty() {
            s.push("themes");
        }
        proof {
            let m = site_model(*self);
            assert(m.fonts.files.len() == self.fonts.files@.len());
            assert(str_views(s@) =~= settings_of(m));
        }
        s
    }

    /// Reads one `site:` section into `self`.
    fn read_site(&mut self, v: &Value) -> (r: Result<(), ConfigErrorKind>)
        ensures
            match r {
                Ok(_) => site_step(site_model(*old(self)), *v) == Ok::<SiteModel, Seq<char>>(site_model(*final(self))),
                Err(e) => e is Invalid && site_step(site_model(*old(self)), *v) == Err::<SiteModel, Seq<char>>(msg(e)),
            },
            final(self).path == old(self).path,
    {
        let m = match mapping_or_empty(v, "site")? {
            None => {
                return Ok(());
            },
            Some(m) => m,
        };
        let known: [&'static str; 4] = ["title", "fonts", "theme", "themes"];
        proof {
            assert(str_views(known@) =~= site_keys());
        }
        check_keys(m, "site", &known)?;
        let title: Option<String> = match get(m, "title") {
            None => None,
            Some(x) => {
                if x.is_null() {
                    None
                } else {
                    match x.as_display_str() {
                        None => {
                            let mut msgv: Vec<char> = Vec::new();
                            push_str(&mut msgv, "`site.title` must be a string");
                            return Err(invalid(msgv));
                        },
                        Some(t) => {
                            let tc = chars_of(t.as_str());
                            let tt = trim_v(tc.as_slice());
                            if tt.len() == 0 {
                                let mut msgv: Vec<char> = Vec::new();
                                push_str(&mut msgv, "`site.title` must not be empty");
                                return Err(invalid(msgv));
                            }
                            Some(t)
                        },
                    }
                }
            },
        };
        let fonts: Option<Fonts> = match get(m, "fonts") {
            None => None,
            Some(f) => Some(Fonts::read(f)?),
        };
        let theme: Option<String> = match get(m, "theme") {
            None => None,
            Some(x) => {
                if x.is_null() {
                    None
                } else {
                    match x.as_str() {
                        None => {
                            let mut msgv: Vec<char> = Vec::new();
                            push_str(&mut msgv, "`site.theme` must be a string");
                            return Err(invalid(msgv));
                        },
                        Some(raw) => {
                            let rc = chars_of(raw);
                            let t = trim_v(rc.as_slice());
                            if t.len() == 0 {
                                let mut msgv: Vec<char> = Vec::new();
                                push_str(&mut msgv, "`site.theme` must not be empty");
                                return Err(invalid(msgv));
                            }
                            let ts = string_of(t.as_slice());
                            if !str_is(ts.as_str(), AUTO_THEME_ID) {
                                crate::css::theme_id(ts.as_str(), "site.theme")?;
                            }
                            Some(ts)
                        },
                    }
                }
            },
        };
        let themes: Option<Themes> = match get(m, "themes") {
            None => None,
            Some(t) => Some(Themes::read(t)?),
        };
        if title.is_some() {
            self.title = title;
        }
        match fonts {
            Some(f) => {
                self.fonts = f;
            },
            None => {},
        }
        if theme.is_some() {
            self.theme = theme;
        }
        match themes {
            Some(t) => {
                self.themes = t;
            },
            None => {},
        }
        Ok(())
    }

    /// Reads a whole configuration document (the parsed file).
    pub fn from_document(document: &Value) -> (r: Result<SiteConfig, ConfigErrorKind>)
        ensures
            match r {
                Ok(c) => c.path is None && document_read(*document) == Ok::<SiteModel, Seq<char>>(site_model(c)),
                Err(e) => e is Invalid && document_read(*document) == Err::<SiteModel, Seq<char>>(msg(e)),
            },
    {
        let mut config = SiteConfig::default();
        let m = match document {
            Value::Null => {
                return Ok(config);
            },
            Value::Mapping(m) => m,
            _ => {
                let mut msgv: Vec<char> = Vec::new();
                push_str(&mut msgv, "the document must be a mapping of sections (e.g. `site:`)");
                return Err(invalid(msgv));
            },
        };
        let mut i: usize = 0;
        while i < m.len()
            invariant
                i <= m@.len(),
                *document == Value::Mapping(*m),
                forall|j: int| 0 <= j < i ==> !(#[trigger] str_of(m@[j].0) is None),
            decreases m.len() - i,
        {
            if m[i].0.as_str().is_none() {
                let mut msgv: Vec<char> = Vec::new();
                push_str(&mut msgv, "section names must be strings");
                assert(str_of(m@[i as int].0) is None);
                return Err(invalid(msgv));
            }
            i += 1;
        }
        let mut i: usize = 0;
        while i < m.len()
            invariant
                i <= m@.len(),
                config.path is None,
                *document == Value::Mapping(*m),
                !has_non_string_key(m@),
                sections_read(m@, i as int) == Ok::<SiteModel, Seq<char>>(site_model(config)),
            decreases m.len() - i,
        {
            match m[i].0.as_str() {
                Some(name) => {
                    if str_is(name, "site") {
                        match config.read_site(&m[i].1) {
                            Ok(_) => {},
                            Err(e) => {
                                proof {
                                    lemma_sections_read_err(m@, i + 1, m@.len() as int);
                                }
                                return Err(e);
                            },
                        }
                    } else {
                        let mut note: Vec<char> = Vec::new();
                        push_str(&mut note, CONFIG_PATH);
                        push_str(&mut note, ": ignoring unknown section `");
                        push_str(&mut note, name);
                        push_str(&mut note, "`");
                        let ghost before = site_model(config);
                        config.notes.push(string_of(note.as_slice()));
                        proof {
                            assert(string_views(config.notes@) =~= before.notes.push(section_note(name@)));
                            assert(site_model(config) == SiteModel { notes: before.notes.push(section_note(name@)), ..before });
                        }
                    }
                },
                None => {},
            }
            i += 1;
        }
        Ok(config)
    }
}


/// How a YAML error reads: `line N: message`.
pub open spec fn yaml_error_text(e: YamlError) -> Seq<char> {
    "line "@ + decimal(e.line as nat) + ": "@ + e.message@
}

/// How a configuration failure reads.
pub open spec fn kind_text(k: ConfigErrorKind) -> Seq<char> {
    match k {
        ConfigErrorKind::Read(m) => m@,
        ConfigErrorKind::Yaml(e) => yaml_error_text(e),
        ConfigErrorKind::Invalid(m) => m@,
    }
}

impl ConfigErrorKind {
    /// The message, as the build reports it.
    pub fn describe(&self) -> (r: String)
        ensures
            r@ == kind_text(*self),
    {
        match self {
            ConfigErrorKind::Read(m) => m.as_str().to_owned(),
            ConfigErrorKind::Yaml(e) => {
                let mut v: Vec<char> = Vec::new();
                push_str(&mut v, "line ");
                let d = decimal_v(e.line);
                push_all(&mut v, d.as_slice());
                push_str(&mut v, ": ");
                push_str(&mut v, e.message.as_str());
                string_of(v.as_slice())
            },
            ConfigErrorKind::Invalid(m) => m.as_str().to_owned(),
        }
    }
}

impl ConfigError {
    /// `path: message`, as the build reports it.
    pub fn describe(&self) -> (r: String)
        ensures
            r@ == self.path_view() + ": "@ + kind_text(self.kind_view()),
    {
        let mut v = chars_of(self.path.as_str());
        push_str(&mut v, ": ");
        let k = self.kind.describe();
        push_str(&mut v, k.as_str());
        string_of(v.as_slice())
    }
}


impl Default for Fonts {
    fn default() -> (r: Fonts)
        ensures
            fonts_model(r) == empty_fonts(),
    {
        Fonts::empty()
    }
}

impl Default for Themes {
    fn default() -> (r: Themes)
        ensures
            r@ == Seq::<ThemeModel>::empty(),
    {
        Themes::empty()
    }
}

} // verus!
