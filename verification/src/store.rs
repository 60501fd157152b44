//! The store and the command processor. The store is a single
//! mapping from text keys to values, held in ascending key order, one
//! entry per key, every value canonical. The processor reads one
//! command line, applies it to the store, and returns the response
//! text; every failure is a response string, never a fault.

use vstd::prelude::*;
use crate::chars::{
    chars_to_string, cmp_chars, copy_range, lemma_str_cmp_eq, push_str_chars, str_to_chars, Cmp,
};
use crate::model::{
    canon, keys_sorted, lemma_map_absent, lemma_map_found_at, lemma_map_insert_content,
    lemma_map_insert_sorted, lemma_map_remove_sorted, map_find, map_insert, map_remove, ValModel,
};
use crate::numtext::{dec_digits, push_usize};
use crate::parse::{lemma_parse_canon, parse_lit, parse_range};
use crate::render::{disp_lit, disp_lit_into};
use crate::tokens::{join_from, join_tokens, lemma_tokens_models, push_all, tokenize, tokens,
    tokens_models};
use crate::value::{lemma_pair_models, map_insert_value, pair_models, Value};

verus! {

/// The store: a mapping from text keys to values, entries in
/// ascending key order.
pub struct Store {
    entries: Vec<(Vec<char>, Value)>,
}

impl View for Store {
    type V = Seq<(Seq<char>, ValModel)>;

    closed spec fn view(&self) -> Seq<(Seq<char>, ValModel)> {
        pair_models(self.entries@)
    }
}

impl Store {
    /// The store's invariant: keys strictly sorted, values canonical.
    pub open spec fn inv(&self) -> bool {
        keys_sorted(self@) && (forall|i: int| 0 <= i < self@.len() ==> canon(#[trigger] self@[i].1))
    }

    /// An empty store.
    pub fn new() -> (r: Store)
        ensures
            r@ == Seq::<(Seq<char>, ValModel)>::empty(),
            r.inv(),
    {
        let r = Store { entries: Vec::new() };
        proof {
            assert(r@ =~= Seq::<(Seq<char>, ValModel)>::empty());
        }
        r
    }

    /// How many entries the store holds.
    pub fn len(&self) -> (r: usize)
        ensures
            r == self@.len(),
    {
        proof {
            lemma_pair_models(self.entries@);
        }
        self.entries.len()
    }

    /// Inserts or overwrites the entry under the key.
    pub fn insert_chars(&mut self, k: Vec<char>, v: Value)
        requires
            old(self).inv(),
            canon(v@),
        ensures
            final(self)@ == map_insert(old(self)@, k@, v@),
            final(self).inv(),
    {
        let ghost m0 = self@;
        let ghost mk = k@;
        let ghost mv = v@;
        map_insert_value(&mut self.entries, k, v);
        proof {
            lemma_map_insert_sorted(m0, mk, mv);
            assert forall|i: int| 0 <= i < self@.len() implies canon(#[trigger] self@[i].1) by {
                lemma_map_insert_content(m0, mk, mv, i);
                if self@[i] != (mk, mv) {
                    let m = choose|m: int| 0 <= m < m0.len() && m0[m] == self@[i];
                    assert(canon(m0[m].1));
                }
            }
        }
    }

    /// Inserts or overwrites the entry under the key.
    pub fn insert(&mut self, key: &str, v: Value)
        requires
            old(self).inv(),
            canon(v@),
        ensures
            final(self)@ == map_insert(old(self)@, key@, v@),
            final(self).inv(),
    {
        let k = str_to_chars(key);
        self.insert_chars(k, v);
    }

    /// The value under the key, if any.
    #[verifier::loop_isolation(false)]
    pub fn get_chars(&self, k: &Vec<char>) -> (r: Option<&Value>)
        ensures
            match r {
                Option::Some(v) => map_find(self@, k@) == Some(v@),
                Option::None => map_find(self@, k@) is None,
            },
    {
        proof {
            lemma_pair_models(self.entries@);
        }
        let n = self.entries.len();
        let mut i: usize = 0;
        while i < n
            invariant
                i <= n == self.entries@.len(),
                forall|j: int| 0 <= j < i ==> (#[trigger] self@[j].0) != k@,
            decreases n - i,
        {
            let c = cmp_chars(&self.entries[i].0, k);
            proof {
                lemma_str_cmp_eq(self.entries@[i as int].0@, k@);
                lemma_pair_models(self.entries@);
            }
            if matches!(c, Cmp::Eq) {
                proof {
                    lemma_map_found_at(self@, k@, i as int);
                }
                return Some(&self.entries[i].1);
            }
            i = i + 1;
        }
        proof {
            lemma_map_absent(self@, k@);
        }
        None
    }

    /// The value under the key, if any.
    pub fn get(&self, key: &str) -> (r: Option<&Value>)
        ensures
            match r {
                Option::Some(v) => map_find(self@, key@) == Some(v@),
                Option::None => map_find(self@, key@) is None,
            },
    {
        let k = str_to_chars(key);
        self.get_chars(&k)
    }

    /// Whether the store holds the key.
    pub fn contains_chars(&self, k: &Vec<char>) -> (r: bool)
        ensures
            r == (map_find(self@, k@) is Some),
    {
        match self.get_chars(k) {
            Option::Some(_) => true,
            Option::None => false,
        }
    }

    /// Whether the store holds the key.
    pub fn contains_key(&self, key: &str) -> (r: bool)
        ensures
            r == (map_find(self@, key@) is Some),
    {
        let k = str_to_chars(key);
        self.contains_chars(&k)
    }

    /// Removes the entry under the key; reports whether one was
    /// there.
    #[verifier::loop_isolation(false)]
    pub fn remove_chars(&mut self, k: &Vec<char>) -> (r: bool)
        requires
            old(self).inv(),
        ensures
            r == (map_find(old(self)@, k@) is Some),
            final(self)@ == map_remove(old(self)@, k@),
            final(self).inv(),
    {
        proof {
            lemma_pair_models(self.entries@);
        }
        let ghost m0 = self@;
        let n = self.entries.len();
        let mut i: usize = 0;
        while i < n
            invariant
                i <= n == self.entries@.len(),
                self@ == m0,
                self.inv(),
                forall|j: int| 0 <= j < i ==> (#[trigger] self@[j].0) != k@,
            decreases n - i,
        {
            let c = cmp_chars(&self.entries[i].0, k);
            proof {
                lemma_str_cmp_eq(self.entries@[i as int].0@, k@);
                lemma_pair_models(self.entries@);
            }
            if matches!(c, Cmp::Eq) {
                proof {
                    lemma_map_found_at(m0, k@, i as int);
                    lemma_map_remove_sorted(m0, k@, i as int);
                }
                self.entries.remove(i);
                proof {
                    lemma_pair_models(self.entries@);
                    assert(self@ =~= m0.remove(i as int));
                    assert forall|j: int| 0 <= j < self@.len() implies canon(
                        #[trigger] self@[j].1,
                    ) by {
                        assert(self@[j] == m0.remove(i as int)[j]);
                        assert(crate::model::has_pair(m0, m0.remove(i as int)[j]));
                        let p = choose|p: int| 0 <= p < m0.len() && m0[p] == self@[j];
                        assert(canon(m0[p].1));
                    }
                }
                return true;
            }
            i = i + 1;
        }
        proof {
            lemma_map_absent(m0, k@);
        }
        false
    }
}

/// The joined key list of the store, in ascending key order.
pub open spec fn keys_join(m: Seq<(Seq<char>, ValModel)>) -> Seq<char>
    decreases m.len(),
{
    if m.len() == 0 {
        Seq::empty()
    } else if m.len() == 1 {
        m[0].0
    } else {
        keys_join(m.drop_last()) + seq![',', ' '] + m.last().0
    }
}

/// One numbered history line.
pub open spec fn hist_line(n: int, c: Seq<char>) -> Seq<char> {
    dec_digits(n as nat) + seq![':', ' '] + c
}

/// The numbered history lines joined with newlines, first command
/// numbered 1.
pub open spec fn hist_join(h: Seq<Seq<char>>) -> Seq<char>
    decreases h.len(),
{
    if h.len() == 0 {
        Seq::empty()
    } else if h.len() == 1 {
        hist_line(1, h[0])
    } else {
        hist_join(h.drop_last()) + seq!['\n'] + hist_line(h.len() as int, h.last())
    }
}

/// What one command line does: the response text and the store
/// afterwards.
pub open spec fn apply_spec(
    m: Seq<(Seq<char>, ValModel)>,
    input: Seq<char>,
    hist: Seq<Seq<char>>,
) -> (Seq<char>, Seq<(Seq<char>, ValModel)>) {
    let ts = tokens(input);
    if ts.len() == 0 {
        ("Error: Please enter a command.\nUse 'help' to see available commands."@, m)
    } else if ts[0] == "set"@ {
        if ts.len() == 1 {
            ("Error: The 'set' command requires <key> and <value>.\nUsage: set <key> <value>"@, m)
        } else if ts.len() == 2 {
            ("Error: The 'set' command requires <value>.\nUsage: set <key> <value>"@, m)
        } else {
            let key = ts[1];
            match parse_lit(join_tokens(ts.skip(2))) {
                Some(v) => (
                    "Set key '"@ + key + "' with value '"@ + disp_lit(v) + "'"@,
                    map_insert(m, key, v),
                ),
                None => (
                    "Error: Unsupported value type.\nSupported types: String, Integer, Boolean, Map, List, Set"@,
                    m,
                ),
            }
        }
    } else if ts[0] == "get"@ {
        if ts.len() == 1 {
            ("Error: The 'get' command requires <key>.\nUsage: get <key>"@, m)
        } else {
            let key = ts[1];
            match map_find(m, key) {
                Some(v) => ("Value for key '"@ + key + "': '"@ + disp_lit(v) + "'"@, m),
                None => ("Error: Key '"@ + key + "' was not found."@, m),
            }
        }
    } else if ts[0] == "delete"@ {
        if ts.len() == 1 {
            ("Error: The 'delete' command requires <key>.\nUsage: delete <key>"@, m)
        } else {
            let key = ts[1];
            if map_find(m, key) is Some {
                ("Key '"@ + key + "' deleted."@, map_remove(m, key))
            } else {
                ("Error: Key '"@ + key + "' was not found."@, m)
            }
        }
    } else if ts[0] == "update"@ {
        if ts.len() == 1 {
            (
                "Error: The 'update' command requires <key> and <new_value>.\nUsage: update <key> <new_value>"@,
                m,
            )
        } else if ts.len() == 2 {
            (
                "Error: The 'update' command requires <new_value>.\nUsage: update <key> <new_value>"@,
                m,
            )
        } else {
            let key = ts[1];
            if map_find(m, key) is None {
                ("Error: Key '"@ + key + "' does not exist."@, m)
            } else {
                match parse_lit(join_tokens(ts.skip(2))) {
                    Some(v) => (
                        "Updated key '"@ + key + "' with new value '"@ + disp_lit(v) + "'"@,
                        map_insert(m, key, v),
                    ),
                    None => (
                        "Error: Unsupported value type.\nSupported types: String, Integer, Boolean, Map, List, Set"@,
                        m,
                    ),
                }
            }
        }
    } else if ts[0] == "list"@ {
        if ts.len() > 1 {
            ("Error: The 'list' command does not take any arguments.\nUsage: list"@, m)
        } else if m.len() == 0 {
            ("Store is empty."@, m)
        } else {
            ("Keys: "@ + keys_join(m), m)
        }
    } else if ts[0] == "help"@ {
        if ts.len() > 1 {
            ("Error: The 'help' command does not take any arguments.\nUsage: help"@, m)
        } else {
            (
                "Available commands:\n- set <key> <value>: Sets a key-value pair in the store.\n- get <key>: Retrieves the value for the specified key.\n- delete <key>: Removes the specified key from the store.\n- update <key> <new_value>: Updates the value of an existing key.\n- list: Lists all keys currently in the store.\n- history: Displays the history of executed commands.\n- help: Displays available commands and their descriptions.\n- exit: Exits the program."@,
                m,
            )
        }
    } else if ts[0] == "history"@ {
        if ts.len() > 1 {
            ("Error: The 'history' command does not take any arguments.\nUsage: history"@, m)
        } else if hist.len() == 0 {
            ("No commands in history."@, m)
        } else {
            ("Command History:\n"@ + hist_join(hist), m)
        }
    } else if ts[0] == "exit"@ {
        ("Exiting..."@, m)
    } else {
        ("Error: Unknown command '"@ + ts[0] + "'.\nUse 'help' to see available commands."@, m)
    }
}

/// Whether a token equals the given pattern.
fn eq_str_vec(x: &Vec<char>, pat: &str) -> (r: bool)
    ensures
        r == (x@ == pat@),
{
    let n = x.len();
    let r = crate::chars::range_eq_str(x, 0, n, pat);
    proof {
        assert(x@.subrange(0, n as int) =~= x@);
    }
    r
}

/// Applies one command line to the store and returns the response
/// text, as [`apply_spec`] describes.
#[verifier::loop_isolation(false)]
pub fn process_command(store: &mut Store, input: &str, history: &Vec<String>) -> (r: String)
    requires
        old(store).inv(),
    ensures
        final(store).inv(),
        r@ == apply_spec(old(store)@, input@, history.deep_view()).0,
        final(store)@ == apply_spec(old(store)@, input@, history.deep_view()).1,
{
    let chars = str_to_chars(input);
    let toks = tokenize(&chars);
    let ghost ts = tokens(input@);
    proof {
        lemma_tokens_models(toks@);
        assert(tokens_models(toks@) =~= ts);
    }
    let ntok = toks.len();
    let mut out: Vec<char> = Vec::new();
    if ntok == 0 {
        push_str_chars(&mut out, "Error: Please enter a command.\nUse 'help' to see available commands.");
        return chars_to_string(&out);
    }
    if eq_str_vec(&toks[0], "set") {
        if ntok == 1 {
            push_str_chars(&mut out, "Error: The 'set' command requires <key> and <value>.\nUsage: set <key> <value>");
            return chars_to_string(&out);
        }
        if ntok == 2 {
            push_str_chars(&mut out, "Error: The 'set' command requires <value>.\nUsage: set <key> <value>");
            return chars_to_string(&out);
        }
        let lit = join_from(&toks, 2);
        let nlit = lit.len();
        proof {
            assert(lit@.subrange(0, nlit as int) =~= lit@);
        }
        match parse_range(&lit, 0, nlit) {
            Option::Some(val) => {
                proof {
                    lemma_parse_canon(lit@);
                }
                push_str_chars(&mut out, "Set key '");
                push_all(&mut out, &toks[1]);
                push_str_chars(&mut out, "' with value '");
                disp_lit_into(&mut out, &val);
                push_str_chars(&mut out, "'");
                let key = copy_range(&toks[1], 0, toks[1].len());
                proof {
                    assert(toks@[1].view().subrange(0, toks@[1].view().len() as int)
                        =~= toks@[1]@);
                }
                store.insert_chars(key, val);
                return chars_to_string(&out);
            },
            Option::None => {
                push_str_chars(&mut out, "Error: Unsupported value type.\nSupported types: String, Integer, Boolean, Map, List, Set");
                return chars_to_string(&out);
            },
        }
    }
    if eq_str_vec(&toks[0], "get") {
        if ntok == 1 {
            push_str_chars(&mut out, "Error: The 'get' command requires <key>.\nUsage: get <key>");
            return chars_to_string(&out);
        }
        match store.get_chars(&toks[1]) {
            Option::Some(v) => {
                push_str_chars(&mut out, "Value for key '");
                push_all(&mut out, &toks[1]);
                push_str_chars(&mut out, "': '");
                disp_lit_into(&mut out, v);
                push_str_chars(&mut out, "'");
                return chars_to_string(&out);
            },
            Option::None => {
                push_str_chars(&mut out, "Error: Key '");
                push_all(&mut out, &toks[1]);
                push_str_chars(&mut out, "' was not found.");
                return chars_to_string(&out);
            },
        }
    }
    if eq_str_vec(&toks[0], "delete") {
        if ntok == 1 {
            push_str_chars(&mut out, "Error: The 'delete' command requires <key>.\nUsage: delete <key>");
            return chars_to_string(&out);
        }
        if store.remove_chars(&toks[1]) {
            push_str_chars(&mut out, "Key '");
            push_all(&mut out, &toks[1]);
            push_str_chars(&mut out, "' deleted.");
            return chars_to_string(&out);
        } else {
            proof {
                crate::model::lemma_map_find_none_remove(old(store)@, toks@[1]@);
            }
            push_str_chars(&mut out, "Error: Key '");
            push_all(&mut out, &toks[1]);
            push_str_chars(&mut out, "' was not found.");
            return chars_to_string(&out);
        }
    }
    if eq_str_vec(&toks[0], "update") {
        if ntok == 1 {
            push_str_chars(&mut out, "Error: The 'update' command requires <key> and <new_value>.\nUsage: update <key> <new_value>");
            return chars_to_string(&out);
        }
        if ntok == 2 {
            push_str_chars(&mut out, "Error: The 'update' command requires <new_value>.\nUsage: update <key> <new_value>");
            return chars_to_string(&out);
        }
        if !store.contains_chars(&toks[1]) {
            push_str_chars(&mut out, "Error: Key '");
            push_all(&mut out, &toks[1]);
            push_str_chars(&mut out, "' does not exist.");
            return chars_to_string(&out);
        }
        let lit = join_from(&toks, 2);
        let nlit = lit.len();
        proof {
            assert(lit@.subrange(0, nlit as int) =~= lit@);
        }
        match parse_range(&lit, 0, nlit) {
            Option::Some(val) => {
                proof {
                    lemma_parse_canon(lit@);
                }
                push_str_chars(&mut out, "Updated key '");
                push_all(&mut out, &toks[1]);
                push_str_chars(&mut out, "' with new value '");
                disp_lit_into(&mut out, &val);
                push_str_chars(&mut out, "'");
                let key = copy_range(&toks[1], 0, toks[1].len());
                proof {
                    assert(toks@[1].view().subrange(0, toks@[1].view().len() as int)
                        =~= toks@[1]@);
                }
                store.insert_chars(key, val);
                return chars_to_string(&out);
            },
            Option::None => {
                push_str_chars(&mut out, "Error: Unsupported value type.\nSupported types: String, Integer, Boolean, Map, List, Set");
                return chars_to_string(&out);
            },
        }
    }
    if eq_str_vec(&toks[0], "list") {
        if ntok > 1 {
            push_str_chars(&mut out, "Error: The 'list' command does not take any arguments.\nUsage: list");
            return chars_to_string(&out);
        }
        if store.len() == 0 {
            proof {
                assert(store@.len() == 0);
            }
            push_str_chars(&mut out, "Store is empty.");
            return chars_to_string(&out);
        }
        push_str_chars(&mut out, "Keys: ");
        push_keys(&mut out, store);
        return chars_to_string(&out);
    }
    if eq_str_vec(&toks[0], "help") {
        if ntok > 1 {
            push_str_chars(&mut out, "Error: The 'help' command does not take any arguments.\nUsage: help");
            return chars_to_string(&out);
        }
        push_str_chars(&mut out, "Available commands:\n- set <key> <value>: Sets a key-value pair in the store.\n- get <key>: Retrieves the value for the specified key.\n- delete <key>: Removes the specified key from the store.\n- update <key> <new_value>: Updates the value of an existing key.\n- list: Lists all keys currently in the store.\n- history: Displays the history of executed commands.\n- help: Displays available commands and their descriptions.\n- exit: Exits the program.");
        return chars_to_string(&out);
    }
    if eq_str_vec(&toks[0], "history") {
        if ntok > 1 {
            push_str_chars(&mut out, "Error: The 'history' command does not take any arguments.\nUsage: history");
            return chars_to_string(&out);
        }
        if history.len() == 0 {
            proof {
                assert(history.deep_view().len() == 0);
            }
            push_str_chars(&mut out, "No commands in history.");
            return chars_to_string(&out);
        }
        push_str_chars(&mut out, "Command History:\n");
        push_history(&mut out, history);
        return chars_to_string(&out);
    }
    if eq_str_vec(&toks[0], "exit") {
        push_str_chars(&mut out, "Exiting...");
        return chars_to_string(&out);
    }
    push_str_chars(&mut out, "Error: Unknown command '");
    push_all(&mut out, &toks[0]);
    push_str_chars(&mut out, "'.\nUse 'help' to see available commands.");
    return chars_to_string(&out);
}

/// Appends the store's keys joined with `", "`, in ascending order.
#[verifier::loop_isolation(false)]
fn push_keys(out: &mut Vec<char>, store: &Store)
    ensures
        final(out)@ == old(out)@ + keys_join(store@),
{
    let ghost m = store@;
    proof {
        lemma_pair_models(store.entries@);
    }
    let n = store.entries.len();
    let mut i: usize = 0;
    proof {
        assert(m.take(0) =~= Seq::<(Seq<char>, ValModel)>::empty());
        assert(out@ =~= old(out)@ + keys_join(m.take(0)));
    }
    while i < n
        invariant
            i <= n == store.entries@.len(),
            out@ == old(out)@ + keys_join(m.take(i as int)),
        decreases n - i,
    {
        if i > 0 {
            push_str_chars(out, ", ");
        }
        push_all(out, &store.entries[i].0);
        proof {
            reveal_strlit(", ");
            assert(", "@ =~= seq![',', ' ']);
            assert(m.take(i + 1).drop_last() =~= m.take(i as int));
            assert(m.take(i + 1).last() == m[i as int]);
            assert(m[i as int].0 == store.entries@[i as int].0@);
            if i == 0 {
                assert(keys_join(m.take(1)) == m[0].0);
                assert(out@ =~= old(out)@ + keys_join(m.take(1)));
            } else {
                assert(keys_join(m.take(i + 1)) == keys_join(m.take(i as int)) + seq![',', ' ']
                    + m[i as int].0);
                assert(out@ =~= old(out)@ + keys_join(m.take(i + 1)));
            }
        }
        i = i + 1;
    }
    proof {
        assert(m.take(n as int) =~= m);
    }
}

/// Appends the numbered history lines joined with newlines.
#[verifier::loop_isolation(false)]
fn push_history(out: &mut Vec<char>, history: &Vec<String>)
    ensures
        final(out)@ == old(out)@ + hist_join(history.deep_view()),
{
    let ghost h = history.deep_view();
    let n = history.len();
    let mut i: usize = 0;
    proof {
        assert(h.take(0) =~= Seq::<Seq<char>>::empty());
        assert(out@ =~= old(out)@ + hist_join(h.take(0)));
    }
    while i < n
        invariant
            i <= n == history@.len(),
            out@ == old(out)@ + hist_join(h.take(i as int)),
        decreases n - i,
    {
        if i > 0 {
            out.push('\n');
        }
        push_usize(out, i + 1);
        push_str_chars(out, ": ");
        push_str_chars(out, history[i].as_str());
        proof {
            reveal_strlit(": ");
            assert(": "@ =~= seq![':', ' ']);
            assert(h.take(i + 1).drop_last() =~= h.take(i as int));
            assert(h.take(i + 1).last() == h[i as int]);
            assert(h[i as int] == history@[i as int]@);
            assert(hist_line(i + 1, h[i as int]) == dec_digits((i + 1) as nat) + seq![':', ' ']
                + h[i as int]);
            if i == 0 {
                assert(hist_join(h.take(1)) == hist_line(1, h[0]));
                assert(out@ =~= old(out)@ + hist_join(h.take(1)));
            } else {
                assert(hist_join(h.take(i + 1)) == hist_join(h.take(i as int)) + seq!['\n']
                    + hist_line(i + 1, h[i as int]));
                assert(out@ =~= old(out)@ + hist_join(h.take(i + 1)));
            }
        }
        i = i + 1;
    }
    proof {
        assert(h.take(n as int) =~= h);
    }
}

} // verus!
