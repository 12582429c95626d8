//! The localization file: lines of `key = value` (or a bare key), and the
//! diff between the game's file and the kept copy.
//!
//! Each line of the diff is `+key = value` for a key only the game's file
//! has, `~key = value` for a key whose value changed, and `-key = value`
//! (or `-key` when it had no value) for a key only the copy has.

use vstd::prelude::*;
use vstd::hash_map::StringHashMap;
use vstd::string::StringExecFns;

verus! {

/// The characters with the Unicode White_Space property.
pub open spec fn is_white_space(c: char) -> bool {
    ||| c == ' '
    ||| ('\t' <= c && c <= '\r')
    ||| c == '\u{85}'
    ||| c == '\u{a0}'
    ||| c == '\u{1680}'
    ||| ('\u{2000}' <= c && c <= '\u{200a}')
    ||| c == '\u{2028}'
    ||| c == '\u{2029}'
    ||| c == '\u{202f}'
    ||| c == '\u{205f}'
    ||| c == '\u{3000}'
}

/// `s` without its leading white space.
pub open spec fn trim_start_chars(s: Seq<char>) -> Seq<char>
    decreases s.len(),
{
    if s.len() > 0 && is_white_space(s[0]) {
        trim_start_chars(s.drop_first())
    } else {
        s
    }
}

/// `s` without its trailing white space.
pub open spec fn trim_end_chars(s: Seq<char>) -> Seq<char>
    decreases s.len(),
{
    if s.len() > 0 && is_white_space(s.last()) {
        trim_end_chars(s.drop_last())
    } else {
        s
    }
}

/// `s` without its leading and trailing white space.
pub open spec fn trim_chars(s: Seq<char>) -> Seq<char> {
    trim_end_chars(trim_start_chars(s))
}

/// The pieces of `s` between its newlines; a trailing newline leaves an
/// empty last piece.
pub open spec fn split_newlines(s: Seq<char>) -> Seq<Seq<char>>
    decreases s.len(),
{
    if s.len() == 0 {
        seq![seq![]]
    } else if s.last() == '\n' {
        split_newlines(s.drop_last()).push(seq![])
    } else {
        let r = split_newlines(s.drop_last());
        r.update(r.len() - 1, r.last().push(s.last()))
    }
}

/// The position of the first `=` in `s`, or -1 when there is none.
pub open spec fn first_eq(s: Seq<char>) -> int
    decreases s.len(),
{
    if s.len() == 0 {
        -1
    } else if s[0] == '=' {
        0
    } else if first_eq(s.drop_first()) < 0 {
        -1
    } else {
        first_eq(s.drop_first()) + 1
    }
}

/// Relies on `str::split`: the pieces of `s` between its newlines, in order.
#[verifier::external_body]
fn split_lines(s: &str) -> (r: Vec<&str>)
    ensures
        r@.map_values(|l: &str| l@) == split_newlines(s@),
{
    s.split('\n').collect()
}

/// Relies on `str::trim`: `s` without leading and trailing White_Space.
#[verifier::external_body]
fn trim(s: &str) -> (r: &str)
    ensures
        r@ == trim_chars(s@),
{
    s.trim()
}

/// Relies on `str::split_once`: what stands before and after the first `=`.
#[verifier::external_body]
fn split_at_eq(s: &str) -> (r: Option<(&str, &str)>)
    ensures
        match r {
            None => first_eq(s@) < 0,
            Some((a, b)) => first_eq(s@) >= 0 && a@ == s@.subrange(0, first_eq(s@)) && b@
                == s@.subrange(first_eq(s@) + 1, s@.len() as int),
        },
{
    s.split_once('=')
}

/// One line of a localization file.
#[derive(Debug, Clone, PartialEq, Eq)]
pub struct LangEntry {
    pub key: String,
    pub value: Option<String>,
}

/// A line's key and value, as characters.
pub type LangView = (Seq<char>, Option<Seq<char>>);

/// The characters of an optional string.
pub open spec fn opt_view(v: Option<String>) -> Option<Seq<char>> {
    match v {
        Some(s) => Some(s@),
        None => None,
    }
}

impl View for LangEntry {
    type V = LangView;

    open spec fn view(&self) -> LangView {
        (self.key@, opt_view(self.value))
    }
}

/// A line read as an entry: `None` for a blank line; else the trimmed text
/// before the first `=` as the key and the trimmed text after it as the
/// value, or the trimmed line as a key without value where there is no `=`.
pub open spec fn parse_line(l: Seq<char>) -> Option<LangView> {
    if trim_chars(l).len() == 0 {
        None
    } else if first_eq(l) < 0 {
        Some((trim_chars(l), None))
    } else {
        Some(
            (
                trim_chars(l.subrange(0, first_eq(l))),
                Some(trim_chars(l.subrange(first_eq(l) + 1, l.len() as int))),
            ),
        )
    }
}

/// The entries of the first `n` lines of `lines`, in order.
pub open spec fn parse_lines(lines: Seq<Seq<char>>, n: int) -> Seq<LangView>
    decreases n,
{
    if n <= 0 {
        seq![]
    } else {
        match parse_line(lines[n - 1]) {
            Some(e) => parse_lines(lines, n - 1).push(e),
            None => parse_lines(lines, n - 1),
        }
    }
}

/// The entries of a localization file, in order.
pub open spec fn parse_lang(content: Seq<char>) -> Seq<LangView> {
    parse_lines(split_newlines(content), split_newlines(content).len() as int)
}

/// Reads one line.
pub fn parse_lang_line(line: &str) -> (r: Option<LangEntry>)
    ensures
        match r {
            Some(e) => parse_line(line@) == Some(e@),
            None => parse_line(line@) is None,
        },
{
    let t = trim(line);
    if t.is_empty() {
        return None;
    }
    match split_at_eq(line) {
        None => Some(LangEntry { key: t.to_owned(), value: None }),
        Some((before, after)) => {
            let key = trim(before).to_owned();
            let value = trim(after).to_owned();
            Some(LangEntry { key, value: Some(value) })
        },
    }
}

/// Reads a whole localization file, skipping blank lines.
pub fn parse_lang_file(content: &str) -> (r: Vec<LangEntry>)
    ensures
        r@.map_values(|e: LangEntry| e@) == parse_lang(content@),
{
    let lines = split_lines(content);
    let ghost ls = split_newlines(content@);
    let mut out: Vec<LangEntry> = Vec::new();
    let mut i: usize = 0;
    proof {
        assert(lines@.len() == ls.len());
        assert(out@.map_values(|e: LangEntry| e@) =~= parse_lines(ls, 0));
    }
    while i < lines.len()
        invariant
            i <= lines@.len(),
            lines@.map_values(|l: &str| l@) == ls,
            out@.map_values(|e: LangEntry| e@) == parse_lines(ls, i as int),
        decreases lines@.len() - i,
    {
        proof {
            assert(ls[i as int] == lines@[i as int]@);
        }
        match parse_lang_line(lines[i]) {
            Some(e) => {
                let ghost before = out@;
                out.push(e);
                proof {
                    assert(out@.map_values(|e: LangEntry| e@) =~= before.map_values(|e: LangEntry| e@).push(
                        e@,
                    ));
                }
            },
            None => {},
        }
        i = i + 1;
    }
    proof {
        assert(lines@.len() == ls.len());
    }
    out
}

/// The position of the last entry of each key.
pub open spec fn key_index(es: Seq<LangView>) -> Map<Seq<char>, usize>
    decreases es.len(),
{
    if es.len() == 0 {
        Map::empty()
    } else {
        key_index(es.drop_last()).insert(es.last().0, (es.len() - 1) as usize)
    }
}

/// The value of key `k`, its last entry winning, or `None` without an entry.
pub open spec fn lookup(es: Seq<LangView>, k: Seq<char>) -> Option<Option<Seq<char>>> {
    if key_index(es).contains_key(k) {
        Some(es[key_index(es)[k] as int].1)
    } else {
        None
    }
}

/// The text of an optional value; empty without one.
pub open spec fn value_text(v: Option<Seq<char>>) -> Seq<char> {
    match v {
        Some(s) => s,
        None => seq![],
    }
}

/// The diff line of entry `i` of the game's file: `+` where the copy lacks
/// the key, `~` where its value differs; nothing for an unchanged key or an
/// entry that a later one of the same key overrides.
pub open spec fn game_line(g: Seq<LangView>, e: Seq<LangView>, i: int) -> Seq<char> {
    let k = g[i].0;
    let v = g[i].1;
    if key_index(g)[k] != i {
        seq![]
    } else {
        match lookup(e, k) {
            None => "+"@ + k + " = "@ + value_text(v) + "\n"@,
            Some(ov) => if ov != v {
                "~"@ + k + " = "@ + value_text(v) + "\n"@
            } else {
                seq![]
            },
        }
    }
}

/// The diff line of entry `i` of the copy: `-` where the game's file lacks
/// the key; nothing otherwise.
pub open spec fn copy_line(g: Seq<LangView>, e: Seq<LangView>, i: int) -> Seq<char> {
    let k = e[i].0;
    if key_index(e)[k] != i || key_index(g).contains_key(k) {
        seq![]
    } else {
        match e[i].1 {
            Some(v) => "-"@ + k + " = "@ + v + "\n"@,
            None => "-"@ + k + "\n"@,
        }
    }
}

/// The diff lines of the first `n` entries of the game's file.
pub open spec fn game_lines(g: Seq<LangView>, e: Seq<LangView>, n: int) -> Seq<char>
    decreases n,
{
    if n <= 0 {
        seq![]
    } else {
        game_lines(g, e, n - 1) + game_line(g, e, n - 1)
    }
}

/// The diff lines of the first `n` entries of the copy.
pub open spec fn copy_lines(g: Seq<LangView>, e: Seq<LangView>, n: int) -> Seq<char>
    decreases n,
{
    if n <= 0 {
        seq![]
    } else {
        copy_lines(g, e, n - 1) + copy_line(g, e, n - 1)
    }
}

/// The whole diff between the game's entries `g` and the copy's entries `e`.
pub open spec fn diff_text(g: Seq<LangView>, e: Seq<LangView>) -> Seq<char> {
    game_lines(g, e, g.len() as int) + copy_lines(g, e, e.len() as int)
}

/// Every key of an entry is in `key_index`.
pub proof fn lemma_key_listed(es: Seq<LangView>, j: int)
    requires
        0 <= j < es.len(),
    ensures
        key_index(es).contains_key(es[j].0),
    decreases es.len(),
{
    if j < es.len() - 1 {
        lemma_key_listed(es.drop_last(), j);
        assert(es.drop_last()[j] == es[j]);
    }
}

/// `key_index` points at an entry of the key.
pub proof fn lemma_key_index(es: Seq<LangView>, k: Seq<char>)
    requires
        es.len() <= usize::MAX,
    ensures
        key_index(es).contains_key(k) ==> key_index(es)[k] < es.len() && es[key_index(es)[k] as int].0
            == k,
    decreases es.len(),
{
    if es.len() > 0 {
        let init = es.drop_last();
        lemma_key_index(init, k);
        if k != es.last().0 && key_index(init).contains_key(k) {
            assert(init[key_index(init)[k] as int] == es[key_index(init)[k] as int]);
        }
    }
}

/// The views of a list of entries.
pub open spec fn views(es: Seq<LangEntry>) -> Seq<LangView> {
    es.map_values(|e: LangEntry| e@)
}

fn index_keys(es: &Vec<LangEntry>) -> (m: StringHashMap<usize>)
    ensures
        m@ == key_index(views(es@)),
{
    let mut m: StringHashMap<usize> = StringHashMap::new();
    let mut i: usize = 0;
    proof {
        assert(views(es@.subrange(0, 0)) =~= Seq::<LangView>::empty());
    }
    while i < es.len()
        invariant
            i <= es@.len(),
            m@ == key_index(views(es@.subrange(0, i as int))),
        decreases es@.len() - i,
    {
        m.insert(es[i].key.clone(), i);
        proof {
            let s = views(es@.subrange(0, i + 1));
            assert(s.drop_last() =~= views(es@.subrange(0, i as int)));
            assert(s.last() == es@[i as int]@);
        }
        i = i + 1;
    }
    proof {
        assert(es@.subrange(0, i as int) =~= es@);
    }
    m
}

fn same_value(a: &Option<String>, b: &Option<String>) -> (r: bool)
    ensures
        r == (opt_view(*a) == opt_view(*b)),
{
    match (a, b) {
        (Some(x), Some(y)) => *x == *y,
        (None, None) => true,
        _ => false,
    }
}

/// Appends `sign`, the key, and ` = ` with the value where there is one.
fn append_line(out: &mut String, sign: &str, key: &String, value: &Option<String>)
    ensures
        final(out)@ == match opt_view(*value) {
            Some(v) => old(out)@ + sign@ + key@ + " = "@ + v + "\n"@,
            None => old(out)@ + sign@ + key@ + "\n"@,
        },
{
    out.append(sign);
    out.append(key.as_str());
    if let Some(v) = value {
        out.append(" = ");
        out.append(v.as_str());
    }
    out.append("\n");
}

/// The diff text between the game's entries `game` and the copy's entries
/// `copy`.
pub fn diff_entries(game: &Vec<LangEntry>, copy: &Vec<LangEntry>) -> (r: String)
    ensures
        r@ == diff_text(views(game@), views(copy@)),
{
    let ghost g = views(game@);
    let ghost e = views(copy@);
    let g_idx = index_keys(game);
    let e_idx = index_keys(copy);
    let mut out = String::new();
    let mut j: usize = 0;
    assert(g.len() == game.len() && e.len() == copy.len());
    while j < game.len()
        invariant
            j <= game@.len(),
            g.len() <= usize::MAX,
            e.len() <= usize::MAX,
            g == views(game@),
            e == views(copy@),
            g_idx@ == key_index(g),
            e_idx@ == key_index(e),
            out@ == game_lines(g, e, j as int),
        decreases game@.len() - j,
    {
        let entry = &game[j];
        let ghost k = entry.key@;
        proof {
            assert(g[j as int] == entry@);
            lemma_key_listed(g, j as int);
            lemma_key_index(g, k);
            lemma_key_index(e, k);
        }
        let ghost before = out@;
        if let Some(at) = g_idx.get(entry.key.as_str()) {
            if *at == j {
                match e_idx.get(entry.key.as_str()) {
                    None => {
                        append_line(&mut out, "+", &entry.key, &Some(value_or_empty(&entry.value)));
                    },
                    Some(m) => {
                        proof {
                            assert(e[*m as int] == copy@[*m as int]@);
                        }
                        if !same_value(&copy[*m].value, &entry.value) {
                            append_line(&mut out, "~", &entry.key, &Some(value_or_empty(&entry.value)));
                        }
                    },
                }
            }
        }
        proof {
            assert(out@ =~= before + game_line(g, e, j as int));
        }
        j = j + 1;
    }
    let ghost head = out@;
    let mut j: usize = 0;
    proof {
        assert(head + copy_lines(g, e, 0) =~= head);
    }
    while j < copy.len()
        invariant
            j <= copy@.len(),
            g.len() <= usize::MAX,
            e.len() <= usize::MAX,
            g == views(game@),
            e == views(copy@),
            g_idx@ == key_index(g),
            e_idx@ == key_index(e),
            head == game_lines(g, e, g.len() as int),
            out@ == head + copy_lines(g, e, j as int),
        decreases copy@.len() - j,
    {
        let entry = &copy[j];
        let ghost k = entry.key@;
        proof {
            assert(e[j as int] == entry@);
            lemma_key_listed(e, j as int);
            lemma_key_index(e, k);
        }
        let ghost before = out@;
        if let Some(at) = e_idx.get(entry.key.as_str()) {
            if *at == j && !g_idx.contains_key(entry.key.as_str()) {
                append_line(&mut out, "-", &entry.key, &entry.value);
            }
        }
        proof {
            assert(out@ =~= before + copy_line(g, e, j as int));
        }
        j = j + 1;
    }
    out
}

/// The value's text, empty without a value.
fn value_or_empty(v: &Option<String>) -> (r: String)
    ensures
        r@ == value_text(opt_view(*v)),
{
    match v {
        Some(s) => s.clone(),
        None => String::new(),
    }
}

/// The diff text between the game's localization file `game` and the kept
/// copy `copy`.
pub fn lang_diff(game: &str, copy: &str) -> (r: String)
    ensures
        r@ == diff_text(parse_lang(game@), parse_lang(copy@)),
{
    let g = parse_lang_file(game);
    let e = parse_lang_file(copy);
    diff_entries(&g, &e)
}

} // verus!
