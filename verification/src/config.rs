//! Hotkey configuration and combo compilation.
//!
//! A combo string such as `"ctrl+alt+t"` is split on `'+'`, every token is
//! resolved through the keycode table, and all codes but the last are sorted
//! ascending. The last code is the trigger key and keeps its place, so that
//! modifier order never matters while the triggering press stays identified.

use vstd::prelude::*;
use vstd::relations::sorted_by;
use vstd::string::StrSliceExecFns;

use crate::canon::canonical;
use crate::canon::code_le;
use crate::canon::lemma_canonical_order_independent;
use crate::canon::lemma_canonical_shape;
use crate::canon::lemma_code_le_total;
use crate::canon::sort_codes;
use crate::errors::HotkeyError;

verus! {

/// The daemon's configuration, as the loader hands it over: plain values,
/// with both name tables as association lists.
#[derive(Debug)]
pub struct Config {
    pub run_as: String,
    pub shell: String,
    pub env: Vec<(String, String)>,
    pub keycodes: Vec<(String, u32)>,
    pub hotkeys: Vec<Hotkey>,
}

/// One declarative hotkey: an optional name, a `'+'`-joined combo string,
/// and the shell command it runs.
#[derive(Debug)]
pub struct Hotkey {
    pub name: Option<String>,
    pub key: String,
    pub command: String,
}

/// A hotkey compiled to its canonical key sequence.
#[derive(Debug)]
pub struct ParsedHotkey {
    pub keys: Vec<u32>,
    pub command: String,
}

/// The tokens of a combo string, split on `'+'`; empty tokens are kept,
/// so `"a++b"` has an empty second token.
pub open spec fn split_plus(s: Seq<char>) -> Seq<Seq<char>>
    decreases s.len(),
{
    if s.len() == 0 {
        seq![Seq::<char>::empty()]
    } else if s.last() == '+' {
        split_plus(s.drop_last()).push(Seq::<char>::empty())
    } else {
        let rest = split_plus(s.drop_last());
        rest.update(rest.len() - 1, rest.last().push(s.last()))
    }
}

/// A combo always has at least one token.
pub proof fn lemma_split_plus_len(s: Seq<char>)
    ensures
        split_plus(s).len() >= 1,
    decreases s.len(),
{
    if s.len() > 0 {
        lemma_split_plus_len(s.drop_last());
    }
}

/// The code the table gives a name, scanning front to back.
pub open spec fn table_lookup(table: Seq<(String, u32)>, name: Seq<char>) -> Option<u32>
    decreases table.len(),
{
    if table.len() == 0 {
        None
    } else if table.first().0@ == name {
        Some(table.first().1)
    } else {
        table_lookup(table.drop_first(), name)
    }
}

/// The views of a sequence of owned strings.
pub open spec fn token_views(toks: Seq<String>) -> Seq<Seq<char>> {
    toks.map_values(|t: String| t@)
}

/// Every token of the sequence resolves through the table.
pub open spec fn all_resolve(toks: Seq<Seq<char>>, table: Seq<(String, u32)>) -> bool {
    forall|i: int| 0 <= i < toks.len() ==> table_lookup(table, #[trigger] toks[i]) is Some
}

/// The codes the tokens resolve to, in token order.
pub open spec fn resolved_codes(toks: Seq<Seq<char>>, table: Seq<(String, u32)>) -> Seq<u32> {
    Seq::new(toks.len(), |i: int| table_lookup(table, toks[i]).unwrap())
}

/// Whether a combo string compiles against the table: it is non-empty and
/// every token resolves.
pub open spec fn compile_ok(key: Seq<char>, table: Seq<(String, u32)>) -> bool {
    key.len() > 0 && all_resolve(split_plus(key), table)
}

/// The canonical key sequence of a combo that compiles.
pub open spec fn compiled_keys(key: Seq<char>, table: Seq<(String, u32)>) -> Seq<u32> {
    canonical(resolved_codes(split_plus(key), table))
}

/// What error a combo that does not compile must carry: an empty combo is
/// rejected as such, and an unresolved combo names its first token that the
/// table does not define.
pub open spec fn compile_err_ok(e: HotkeyError, key: Seq<char>, table: Seq<(String, u32)>) -> bool {
    match e {
        HotkeyError::EmptyCombo => key.len() == 0,
        HotkeyError::UnknownKey(name) => key.len() > 0 && {
            let toks = split_plus(key);
            exists|i: int|
                {
                    &&& 0 <= i < toks.len()
                    &&& table_lookup(table, #[trigger] toks[i]) is None
                    &&& name@ == toks[i]
                    &&& forall|j: int| 0 <= j < i ==> table_lookup(table, #[trigger] toks[j]) is Some
                }
        },
        _ => false,
    }
}

/// Resolving tokens through a fixed table maps a permutation of tokens to a
/// permutation of codes.
proof fn lemma_resolved_multiset(a: Seq<Seq<char>>, b: Seq<Seq<char>>, table: Seq<(String, u32)>)
    requires
        a.to_multiset() == b.to_multiset(),
    ensures
        resolved_codes(a, table).to_multiset() == resolved_codes(b, table).to_multiset(),
    decreases a.len(),
{
    broadcast use vstd::seq_lib::group_to_multiset_ensures;

    if a.len() == 0 {
        assert(a.to_multiset().len() == 0);
        assert(b.to_multiset().len() == 0);
        assert(b.len() == 0);
        assert(resolved_codes(a, table) =~= resolved_codes(b, table));
    } else {
        let x = a.last();
        assert(a =~= a.drop_last().push(x));
        assert(a.to_multiset() =~= a.drop_last().to_multiset().insert(x));
        assert(a.contains(x));
        assert(a.to_multiset().count(x) > 0);
        assert(b.to_multiset().count(x) > 0);
        assert(b.contains(x));
        let k = choose|k: int| 0 <= k < b.len() && b[k] == x;
        assert(b.remove(k).to_multiset() =~= b.to_multiset().remove(x));
        assert(a.drop_last().to_multiset() =~= b.remove(k).to_multiset());
        lemma_resolved_multiset(a.drop_last(), b.remove(k), table);
        let c = table_lookup(table, x).unwrap();
        assert(resolved_codes(a, table) =~= resolved_codes(a.drop_last(), table).push(c));
        assert(resolved_codes(b.remove(k), table) =~= resolved_codes(b, table).remove(k));
        assert(resolved_codes(b, table)[k] == c);
        assert(resolved_codes(b, table).remove(k).to_multiset() =~= resolved_codes(
            b,
            table,
        ).to_multiset().remove(c));
        assert(resolved_codes(b, table).to_multiset().count(c) > 0) by {
            assert(resolved_codes(b, table).contains(c));
        }
        assert(resolved_codes(a, table).to_multiset() =~= resolved_codes(b, table).to_multiset());
    }
}

/// Compilation is independent of the order in which a combo lists its keys,
/// as long as the trigger key holds the last position: two combos whose
/// other tokens are the same up to order, and whose last tokens agree,
/// compile to one and the same canonical sequence, whose prefix is sorted
/// ascending and whose last element is the trigger key's code.
pub proof fn lemma_compile_order_independent(
    key_a: Seq<char>,
    key_b: Seq<char>,
    table: Seq<(String, u32)>,
)
    requires
        compile_ok(key_a, table),
        compile_ok(key_b, table),
        split_plus(key_a).drop_last().to_multiset() == split_plus(key_b).drop_last().to_multiset(),
        split_plus(key_a).last() == split_plus(key_b).last(),
    ensures
        compiled_keys(key_a, table) == compiled_keys(key_b, table),
        compiled_keys(key_a, table).len() == split_plus(key_a).len(),
        sorted_by(compiled_keys(key_a, table).drop_last(), code_le()),
        compiled_keys(key_a, table).last() == table_lookup(
            table,
            split_plus(key_a).last(),
        ).unwrap(),
{
    let ta = split_plus(key_a);
    let tb = split_plus(key_b);
    lemma_split_plus_len(key_a);
    lemma_split_plus_len(key_b);
    let ra = resolved_codes(ta, table);
    let rb = resolved_codes(tb, table);
    assert(ra.drop_last() =~= resolved_codes(ta.drop_last(), table));
    assert(rb.drop_last() =~= resolved_codes(tb.drop_last(), table));
    lemma_resolved_multiset(ta.drop_last(), tb.drop_last(), table);
    lemma_canonical_order_independent(ra, rb);
    lemma_canonical_shape(ra);
}

/// Split a combo string on `'+'` into its owned tokens.
fn split_tokens(s: &str) -> (toks: Vec<String>)
    ensures
        token_views(toks@) == split_plus(s@),
{
    let n = s.unicode_len();
    let mut toks: Vec<String> = Vec::new();
    proof {
        assert(s@.subrange(0, 0) =~= Seq::<char>::empty());
        assert(token_views(toks@).push(s@.subrange(0, 0)) =~= seq![Seq::<char>::empty()]);
    }
    let mut start: usize = 0;
    let mut i: usize = 0;
    while i < n
        invariant
            n == s@.len(),
            start <= i <= n,
            token_views(toks@).push(s@.subrange(start as int, i as int)) == split_plus(
                s@.subrange(0, i as int),
            ),
        decreases n - i,
    {
        let c = s.get_char(i);
        proof {
            assert(s@.subrange(0, i + 1).drop_last() =~= s@.subrange(0, i as int));
            assert(s@.subrange(0, i + 1).last() == s@[i as int]);
        }
        if c == '+' {
            let tok = s.substring_char(start, i).to_owned();
            proof {
                assert(token_views(toks@.push(tok)) =~= token_views(toks@).push(tok@));
                assert(s@.subrange(i + 1, i + 1) =~= Seq::<char>::empty());
            }
            toks.push(tok);
            start = i + 1;
        } else {
            proof {
                let rest = split_plus(s@.subrange(0, i as int));
                assert(rest.last() == s@.subrange(start as int, i as int));
                assert(s@.subrange(start as int, i + 1) =~= s@.subrange(
                    start as int,
                    i as int,
                ).push(s@[i as int]));
                assert(rest.update(rest.len() - 1, rest.last().push(s@[i as int]))
                    =~= token_views(toks@).push(s@.subrange(start as int, i + 1)));
            }
        }
        i = i + 1;
    }
    let tok = s.substring_char(start, n).to_owned();
    proof {
        assert(s@.subrange(0, n as int) =~= s@);
        assert(token_views(toks@.push(tok)) =~= token_views(toks@).push(tok@));
    }
    toks.push(tok);
    toks
}

/// Resolve one key name through the keycode table.
fn lookup_code(table: &Vec<(String, u32)>, name: &String) -> (r: Option<u32>)
    ensures
        r == table_lookup(table@, name@),
{
    let mut j: usize = 0;
    proof {
        assert(table@.skip(0) =~= table@);
    }
    while j < table.len()
        invariant
            j <= table@.len(),
            table_lookup(table@, name@) == table_lookup(table@.skip(j as int), name@),
        decreases table@.len() - j,
    {
        proof {
            assert(table@.skip(j as int).first() == table@[j as int]);
            assert(table@.skip(j as int).drop_first() =~= table@.skip(j + 1));
        }
        if table[j].0 == *name {
            return Some(table[j].1);
        }
        j = j + 1;
    }
    proof {
        assert(table@.skip(table@.len() as int).len() == 0);
    }
    None
}

impl ParsedHotkey {
    /// Invariant of a compiled hotkey: at least one key, and every key but
    /// the trigger sorted ascending.
    pub open spec fn wf(self) -> bool {
        self.keys@.len() > 0 && sorted_by(self.keys@.drop_last(), code_le())
    }

    /// Compile one hotkey against the keycode table: split the combo on
    /// `'+'`, resolve every token, and sort all codes but the last ascending.
    pub fn new(hotkey: &Hotkey, keycodes: &Vec<(String, u32)>) -> (r: Result<
        ParsedHotkey,
        HotkeyError,
    >)
        ensures
            compile_ok(hotkey.key@, keycodes@) ==> (r matches Ok(ph) && {
                &&& ph.keys@ == compiled_keys(hotkey.key@, keycodes@)
                &&& ph.command@ == hotkey.command@
                &&& ph.wf()
            }),
            !compile_ok(hotkey.key@, keycodes@) ==> (r matches Err(e) && compile_err_ok(
                e,
                hotkey.key@,
                keycodes@,
            )),
    {
        if hotkey.key.as_str().is_empty() {
            return Err(HotkeyError::EmptyCombo);
        }
        let toks = split_tokens(hotkey.key.as_str());
        let ghost tokv = token_views(toks@);
        let mut codes: Vec<u32> = Vec::new();
        let mut i: usize = 0;
        while i < toks.len()
            invariant
                i <= toks@.len(),
                hotkey.key@.len() > 0,
                tokv == token_views(toks@),
                tokv == split_plus(hotkey.key@),
                codes@.len() == i,
                forall|j: int| 0 <= j < i ==> table_lookup(keycodes@, #[trigger] tokv[j]) is Some,
                forall|j: int|
                    0 <= j < i ==> codes@[j] == table_lookup(keycodes@, #[trigger] tokv[j]).unwrap(),
            decreases toks@.len() - i,
        {
            proof {
                assert(tokv[i as int] == toks@[i as int]@);
            }
            match lookup_code(keycodes, &toks[i]) {
                Some(code) => {
                    codes.push(code);
                },
                None => {
                    let name = toks[i].clone();
                    proof {
                        let toksp = split_plus(hotkey.key@);
                        let w = i as int;
                        assert(table_lookup(keycodes@, toksp[w]) is None);
                        assert(name@ == toksp[w]);
                        assert(forall|j: int|
                            0 <= j < w ==> table_lookup(keycodes@, #[trigger] toksp[j]) is Some);
                        assert(!all_resolve(toksp, keycodes@));
                        assert(compile_err_ok(
                            HotkeyError::UnknownKey(name),
                            hotkey.key@,
                            keycodes@,
                        ));
                    }
                    return Err(HotkeyError::UnknownKey(name));
                },
            }
            i = i + 1;
        }
        proof {
            assert(codes@ =~= resolved_codes(tokv, keycodes@));
            lemma_split_plus_len(hotkey.key@);
        }
        let n = codes.len();
        let last = codes[n - 1];
        let ghost resolved = codes@;
        codes.truncate(n - 1);
        proof {
            assert(codes@ =~= resolved.drop_last());
        }
        let mut keys = sort_codes(&codes);
        keys.push(last);
        proof {
            lemma_code_le_total();
            resolved.drop_last().lemma_sort_by_ensures(code_le());
            assert(keys@.drop_last() =~= resolved.drop_last().sort_by(code_le()));
            assert(keys@ == canonical(resolved));
        }
        Ok(ParsedHotkey { keys, command: hotkey.command.clone() })
    }
}

/// Compile every configured hotkey, stopping at the first combo that is
/// rejected: a daemon with an unresolvable hotkey must not run.
pub fn compile_hotkeys(hotkeys: &Vec<Hotkey>, keycodes: &Vec<(String, u32)>) -> (r: Result<
    Vec<ParsedHotkey>,
    HotkeyError,
>)
    ensures
        (r is Ok) <==> (forall|i: int|
            0 <= i < hotkeys@.len() ==> compile_ok((#[trigger] hotkeys@[i]).key@, keycodes@)),
        r matches Ok(v) ==> {
            &&& v@.len() == hotkeys@.len()
            &&& forall|i: int|
                0 <= i < hotkeys@.len() ==> {
                    &&& (#[trigger] v@[i]).keys@ == compiled_keys(hotkeys@[i].key@, keycodes@)
                    &&& v@[i].command@ == hotkeys@[i].command@
                    &&& v@[i].wf()
                }
        },
        r matches Err(e) ==> exists|i: int|
            {
                &&& 0 <= i < hotkeys@.len()
                &&& !compile_ok((#[trigger] hotkeys@[i]).key@, keycodes@)
                &&& compile_err_ok(e, hotkeys@[i].key@, keycodes@)
                &&& forall|j: int|
                    0 <= j < i ==> compile_ok((#[trigger] hotkeys@[j]).key@, keycodes@)
            },
{
    let mut out: Vec<ParsedHotkey> = Vec::new();
    let mut i: usize = 0;
    while i < hotkeys.len()
        invariant
            i <= hotkeys@.len(),
            out@.len() == i,
            forall|j: int| 0 <= j < i ==> compile_ok((#[trigger] hotkeys@[j]).key@, keycodes@),
            forall|j: int|
                0 <= j < i ==> {
                    &&& (#[trigger] out@[j]).keys@ == compiled_keys(hotkeys@[j].key@, keycodes@)
                    &&& out@[j].command@ == hotkeys@[j].command@
                    &&& out@[j].wf()
                },
        decreases hotkeys@.len() - i,
    {
        match ParsedHotkey::new(&hotkeys[i], keycodes) {
            Ok(ph) => {
                out.push(ph);
            },
            Err(e) => {
                return Err(e);
            },
        }
        i = i + 1;
    }
    Ok(out)
}

} // verus!
