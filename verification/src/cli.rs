//! The pure parsing and validation rules of the command line: the key
//! grammar for keybinding literals, the `--expect` binding parser, the
//! source-entry delimiter parser, and the interdependent-flag checks of
//! ad-hoc mode.  Reading the arguments, printing errors and exiting are the
//! caller's outside work.

use vstd::prelude::*;
use vstd::string::StrSliceExecFns;
use vstd::string::StringSliceAdditionalSpecFns;

verus! {

/// A key that a binding can be attached to.
///
/// The textual grammar accepted by the parser: the named keys below by their
/// lower-case name, `ctrl-` or `alt-` followed by one character, or a single
/// character by itself.
#[derive(Clone, Copy, Debug, PartialEq, Eq, Hash, Structural)]
pub enum Key {
    Char(char),
    Ctrl(char),
    Alt(char),
    Esc,
    Enter,
    Up,
    Down,
    Left,
    Right,
    Tab,
    Backspace,
    Delete,
    Home,
    End,
    Space,
}

/// An action a key can be bound to.
#[derive(Clone, Copy, Debug, PartialEq, Eq, Structural)]
pub enum Action {
    Expect(Key),
    Quit,
    SelectNextEntry,
}

/// A non-empty ordered list of actions bound to one key.
#[derive(Clone, Debug, PartialEq, Eq)]
pub struct Actions {
    pub actions: Vec<Action>,
}

impl Actions {
    /// A list of one action.
    pub fn single(action: Action) -> (r: Actions)
        ensures
            r.actions@ == seq![action],
    {
        let mut v: Vec<Action> = Vec::new();
        v.push(action);
        proof {
            assert(v@ =~= seq![action]);
        }
        Actions { actions: v }
    }
}

/// A keybinding table: keys in insertion order, each bound once.
#[derive(Clone, Debug, PartialEq, Eq)]
pub struct KeyBindings {
    pub bindings: Vec<(Key, Actions)>,
}

impl KeyBindings {
    /// The bound keys, in insertion order.
    pub open spec fn s_keys(&self) -> Seq<Key> {
        self.bindings@.map_values(|p: (Key, Actions)| p.0)
    }

    /// No key is bound twice.
    pub open spec fn wf(&self) -> bool {
        forall|i: int, j: int|
            0 <= i < j < self.s_keys().len() ==> self.s_keys()[i] != self.s_keys()[j]
    }

    /// Whether the key is bound.
    pub fn contains_key(&self, key: Key) -> (r: bool)
        ensures
            r == self.s_keys().contains(key),
    {
        let n = self.bindings.len();
        let mut i: usize = 0;
        while i < n
            invariant
                n == self.bindings@.len(),
                0 <= i <= n,
                forall|j: int| 0 <= j < i ==> self.s_keys()[j] != key,
            decreases n - i,
        {
            if self.bindings[i].0 == key {
                proof {
                    assert(self.s_keys()[i as int] == key);
                }
                return true;
            }
            i = i + 1;
        }
        proof {
            if self.s_keys().contains(key) {
                let w = choose|w: int| 0 <= w < self.s_keys().len() && self.s_keys()[w] == key;
                assert(self.s_keys()[w] != key);
            }
        }
        false
    }

    /// Binds the key to the actions, replacing an existing binding in place
    /// or appending a new one.
    pub fn insert(&mut self, key: Key, actions: Actions)
        requires
            old(self).wf(),
        ensures
            final(self).wf(),
            old(self).s_keys().contains(key) ==> final(self).s_keys() == old(self).s_keys(),
            !old(self).s_keys().contains(key) ==> final(self).bindings@ == old(
                self,
            ).bindings@.push((key, actions)),
            forall|j: int|
                0 <= j < final(self).bindings@.len() ==> (#[trigger] final(self).bindings@[j]) == (
                if final(self).s_keys()[j] == key {
                    (key, actions)
                } else {
                    old(self).bindings@[j]
                }),
    {
        let n = self.bindings.len();
        let mut i: usize = 0;
        while i < n
            invariant
                self.bindings@ == old(self).bindings@,
                old(self).wf(),
                n == self.bindings@.len(),
                0 <= i <= n,
                forall|j: int| 0 <= j < i ==> self.s_keys()[j] != key,
            decreases n - i,
        {
            if self.bindings[i].0 == key {
                proof {
                    assert(self.s_keys()[i as int] == key);
                }
                let ghost pre = self.bindings@;
                self.bindings.remove(i);
                self.bindings.insert(i, (key, actions));
                proof {
                    assert(self.bindings@ =~= pre.update(i as int, (key, actions)));
                    assert(self.s_keys() =~= old(self).s_keys());
                }
                return ;
            }
            i = i + 1;
        }
        proof {
            if self.s_keys().contains(key) {
                let w = choose|w: int| 0 <= w < self.s_keys().len() && self.s_keys()[w] == key;
                assert(self.s_keys()[w] != key);
            }
        }
        self.bindings.push((key, actions));
        proof {
            assert(self.s_keys() =~= old(self).s_keys().push(key));
        }
    }
}

impl Default for KeyBindings {
    /// An empty keybinding table.
    fn default() -> (r: KeyBindings)
        ensures
            r.bindings@.len() == 0,
            r.wf(),
    {
        KeyBindings { bindings: Vec::new() }
    }
}

/// An error in the command-line arguments.
#[derive(Clone, Copy, Debug, PartialEq, Eq, Structural)]
pub enum CliError {
    EmptyDelimiter,
    InvalidDelimiterEscape,
    DelimiterNotSingleCharacter,
    InvalidKeyInExpect,
    RequiresSourceCommand,
    RequiresPreviewCommand,
}

/// Index of the first occurrence of `sep`, or `s.len()` when there is none.
pub open spec fn find_sep(s: Seq<char>, sep: char) -> int
    decreases s.len(),
{
    if s.len() == 0 {
        0
    } else if s[0] == sep {
        0
    } else {
        1 + find_sep(s.skip(1), sep)
    }
}

/// The pieces of `s` between occurrences of `sep`; an empty input is one
/// empty piece, and a trailing separator yields a trailing empty piece.
pub open spec fn split_on(s: Seq<char>, sep: char) -> Seq<Seq<char>>
    decreases s.len(),
    via split_on_decreases
{
    let i = find_sep(s, sep);
    if i == s.len() {
        seq![s]
    } else {
        seq![s.take(i)] + split_on(s.skip(i + 1), sep)
    }
}

#[via_fn]
proof fn split_on_decreases(s: Seq<char>, sep: char) {
    lemma_find_sep_bounds(s, sep);
}

proof fn lemma_find_sep_bounds(s: Seq<char>, sep: char)
    ensures
        0 <= find_sep(s, sep) <= s.len(),
    decreases s.len(),
{
    if s.len() > 0 && s[0] != sep {
        lemma_find_sep_bounds(s.skip(1), sep);
    }
}

/// `find_sep` is pinned by the position of the first separator.
proof fn lemma_find_sep_is(s: Seq<char>, sep: char, i: int)
    requires
        0 <= i <= s.len(),
        i < s.len() ==> s[i] == sep,
        forall|k: int| 0 <= k < i ==> s[k] != sep,
        i == s.len() ==> forall|k: int| 0 <= k < s.len() ==> s[k] != sep,
    ensures
        find_sep(s, sep) == i,
    decreases s.len(),
{
    if s.len() == 0 {
    } else if s[0] == sep {
        assert(i == 0);
    } else {
        assert(i >= 1);
        assert(forall|k: int| 0 <= k < i - 1 ==> s.skip(1)[k] == s[k + 1]);
        lemma_find_sep_is(s.skip(1), sep, i - 1);
    }
}

/// A whitespace character, as trimmed from the ends of a binding literal.
pub open spec fn is_ws(c: char) -> bool {
    c == ' ' || c == '\t' || c == '\r' || c == '\n'
}

/// The input without its leading whitespace.
pub open spec fn trim_start_spec(s: Seq<char>) -> Seq<char>
    decreases s.len(),
{
    if s.len() > 0 && is_ws(s[0]) {
        trim_start_spec(s.skip(1))
    } else {
        s
    }
}

/// The input without its trailing whitespace.
pub open spec fn trim_end_spec(s: Seq<char>) -> Seq<char>
    decreases s.len(),
{
    if s.len() > 0 && is_ws(s.last()) {
        trim_end_spec(s.drop_last())
    } else {
        s
    }
}

/// The input without leading or trailing whitespace.
pub open spec fn trim_spec(s: Seq<char>) -> Seq<char> {
    trim_end_spec(trim_start_spec(s))
}

proof fn lemma_trim_start_at(s: Seq<char>, lo: int)
    requires
        0 <= lo <= s.len(),
        forall|j: int| 0 <= j < lo ==> is_ws(#[trigger] s[j]),
        lo < s.len() ==> !is_ws(s[lo]),
    ensures
        trim_start_spec(s) == s.skip(lo),
    decreases lo,
{
    if lo == 0 {
        assert(s.skip(0) =~= s);
    } else {
        assert(forall|j: int| 0 <= j < lo - 1 ==> s.skip(1)[j] == s[j + 1]);
        lemma_trim_start_at(s.skip(1), lo - 1);
        assert(s.skip(1).skip(lo - 1) =~= s.skip(lo));
    }
}

proof fn lemma_trim_end_at(s: Seq<char>, hi: int)
    requires
        0 <= hi <= s.len(),
        forall|j: int| hi <= j < s.len() ==> is_ws(#[trigger] s[j]),
        hi > 0 ==> !is_ws(s[hi - 1]),
    ensures
        trim_end_spec(s) == s.take(hi),
    decreases s.len(),
{
    if s.len() > 0 && is_ws(s.last()) {
        assert(hi < s.len());
        lemma_trim_end_at(s.drop_last(), hi);
        assert(s.drop_last().take(hi) =~= s.take(hi));
    } else {
        assert(s.take(s.len() as int) =~= s);
    }
}

/// Splits a string at every occurrence of the separator.
pub fn split_str(s: &str, sep: char) -> (r: Vec<String>)
    ensures
        r@.len() == split_on(s@, sep).len(),
        forall|k: int| 0 <= k < r@.len() ==> (#[trigger] r@[k])@ == split_on(s@, sep)[k],
{
    let n = s.unicode_len();
    let mut out: Vec<String> = Vec::new();
    let mut start: usize = 0;
    let mut i: usize = 0;
    proof {
        assert(s@.skip(0) =~= s@);
    }
    while i < n
        invariant
            n == s@.len(),
            0 <= start <= i <= n,
            forall|k: int| start <= k < i ==> s@[k] != sep,
            split_on(s@, sep) == out@.map_values(|p: String| p@) + split_on(
                s@.skip(start as int),
                sep,
            ),
        decreases n - i,
    {
        if s.get_char(i) == sep {
            let piece = s.substring_char(start, i).to_owned();
            proof {
                let rest = s@.skip(start as int);
                assert(forall|k: int|
                    0 <= k < i - start ==> rest[k] == s@[k + start] && rest[k] != sep);
                assert(rest[i - start] == s@[i as int]);
                lemma_find_sep_is(rest, sep, i - start);
                assert(rest.take(i - start) =~= s@.subrange(start as int, i as int));
                assert(rest.skip(i - start + 1) =~= s@.skip(i + 1));
                assert(out@.push(piece).map_values(|p: String| p@) =~= out@.map_values(
                    |p: String| p@,
                ) + seq![piece@]);
                assert((out@.map_values(|p: String| p@) + seq![piece@]) + split_on(
                    s@.skip(i + 1),
                    sep,
                ) =~= out@.map_values(|p: String| p@) + (seq![piece@] + split_on(
                    s@.skip(i + 1),
                    sep,
                )));
            }
            out.push(piece);
            start = i + 1;
        }
        i = i + 1;
    }
    let piece = s.substring_char(start, n).to_owned();
    proof {
        let rest = s@.skip(start as int);
        assert(forall|k: int| 0 <= k < rest.len() ==> rest[k] == s@[k + start] && rest[k] != sep);
        lemma_find_sep_is(rest, sep, rest.len() as int);
        assert(piece@ =~= rest);
        assert(out@.push(piece).map_values(|p: String| p@) =~= out@.map_values(|p: String| p@)
            + seq![piece@]);
        assert((out@.map_values(|p: String| p@) + seq![piece@]) =~= out@.map_values(
            |p: String| p@,
        ) + split_on(rest, sep));
    }
    out.push(piece);
    out
}

/// Removes leading and trailing whitespace.
pub fn trim_str(s: &str) -> (r: String)
    ensures
        r@ == trim_spec(s@),
{
    let n = s.unicode_len();
    let mut lo: usize = 0;
    while lo < n && is_ws_char(s.get_char(lo))
        invariant
            n == s@.len(),
            0 <= lo <= n,
            forall|j: int| 0 <= j < lo ==> is_ws(#[trigger] s@[j]),
        decreases n - lo,
    {
        lo = lo + 1;
    }
    let mut hi: usize = n;
    while hi > lo && is_ws_char(s.get_char(hi - 1))
        invariant
            n == s@.len(),
            0 <= lo <= hi <= n,
            forall|j: int| 0 <= j < lo ==> is_ws(#[trigger] s@[j]),
            lo < n ==> !is_ws(s@[lo as int]),
            forall|j: int| hi <= j < n ==> is_ws(#[trigger] s@[j]),
        decreases hi,
    {
        hi = hi - 1;
    }
    let r = s.substring_char(lo, hi).to_owned();
    proof {
        if lo == n {
            lemma_trim_start_at(s@, lo as int);
            assert(s@.skip(lo as int) =~= Seq::<char>::empty());
            assert(trim_end_spec(Seq::<char>::empty()) =~= Seq::<char>::empty());
            assert(r@ =~= Seq::<char>::empty());
        } else {
            lemma_trim_start_at(s@, lo as int);
            let t = s@.skip(lo as int);
            assert(forall|j: int|
                hi - lo <= j < t.len() ==> t[j] == s@[j + lo] && is_ws(t[j]));
            assert(hi > lo ==> t[hi - lo - 1] == s@[hi - 1]);
            lemma_trim_end_at(t, hi - lo);
            assert(t.take(hi - lo) =~= s@.subrange(lo as int, hi as int));
            assert(r@ == trim_spec(s@));
        }
    }
    r
}

/// Whether the character counts as trimmable whitespace.
fn is_ws_char(c: char) -> (r: bool)
    ensures
        r == is_ws(c),
{
    c == ' ' || c == '\t' || c == '\r' || c == '\n'
}

/// The key named by a binding literal: a named key by its lower-case name,
/// `ctrl-` or `alt-` followed by one character, or a single character.
pub open spec fn parse_key_spec(s: Seq<char>) -> Option<Key> {
    if s == seq!['e', 's', 'c'] {
        Some(Key::Esc)
    } else if s == seq!['e', 'n', 't', 'e', 'r'] {
        Some(Key::Enter)
    } else if s == seq!['u', 'p'] {
        Some(Key::Up)
    } else if s == seq!['d', 'o', 'w', 'n'] {
        Some(Key::Down)
    } else if s == seq!['l', 'e', 'f', 't'] {
        Some(Key::Left)
    } else if s == seq!['r', 'i', 'g', 'h', 't'] {
        Some(Key::Right)
    } else if s == seq!['t', 'a', 'b'] {
        Some(Key::Tab)
    } else if s == seq!['b', 'a', 'c', 'k', 's', 'p', 'a', 'c', 'e'] {
        Some(Key::Backspace)
    } else if s == seq!['d', 'e', 'l', 'e', 't', 'e'] {
        Some(Key::Delete)
    } else if s == seq!['h', 'o', 'm', 'e'] {
        Some(Key::Home)
    } else if s == seq!['e', 'n', 'd'] {
        Some(Key::End)
    } else if s == seq!['s', 'p', 'a', 'c', 'e'] {
        Some(Key::Space)
    } else if s.len() == 6 && s.take(5) == seq!['c', 't', 'r', 'l', '-'] {
        Some(Key::Ctrl(s[5]))
    } else if s.len() == 5 && s.take(4) == seq!['a', 'l', 't', '-'] {
        Some(Key::Alt(s[4]))
    } else if s.len() == 1 {
        Some(Key::Char(s[0]))
    } else {
        None
    }
}

/// Parses one key name.
pub fn parse_key(s: &str) -> (r: Option<Key>)
    ensures
        r == parse_key_spec(s@),
{
    proof {
        reveal_strlit("esc");
        reveal_strlit("enter");
        reveal_strlit("up");
        reveal_strlit("down");
        reveal_strlit("left");
        reveal_strlit("right");
        reveal_strlit("tab");
        reveal_strlit("backspace");
        reveal_strlit("delete");
        reveal_strlit("home");
        reveal_strlit("end");
        reveal_strlit("space");
        assert("esc"@ =~= seq!['e', 's', 'c']);
        assert("enter"@ =~= seq!['e', 'n', 't', 'e', 'r']);
        assert("up"@ =~= seq!['u', 'p']);
        assert("down"@ =~= seq!['d', 'o', 'w', 'n']);
        assert("left"@ =~= seq!['l', 'e', 'f', 't']);
        assert("right"@ =~= seq!['r', 'i', 'g', 'h', 't']);
        assert("tab"@ =~= seq!['t', 'a', 'b']);
        assert("backspace"@ =~= seq!['b', 'a', 'c', 'k', 's', 'p', 'a', 'c', 'e']);
        assert("delete"@ =~= seq!['d', 'e', 'l', 'e', 't', 'e']);
        assert("home"@ =~= seq!['h', 'o', 'm', 'e']);
        assert("end"@ =~= seq!['e', 'n', 'd']);
        assert("space"@ =~= seq!['s', 'p', 'a', 'c', 'e']);
    }
    if str_eq(s, "esc") {
        return Some(Key::Esc);
    }
    if str_eq(s, "enter") {
        return Some(Key::Enter);
    }
    if str_eq(s, "up") {
        return Some(Key::Up);
    }
    if str_eq(s, "down") {
        return Some(Key::Down);
    }
    if str_eq(s, "left") {
        return Some(Key::Left);
    }
    if str_eq(s, "right") {
        return Some(Key::Right);
    }
    if str_eq(s, "tab") {
        return Some(Key::Tab);
    }
    if str_eq(s, "backspace") {
        return Some(Key::Backspace);
    }
    if str_eq(s, "delete") {
        return Some(Key::Delete);
    }
    if str_eq(s, "home") {
        return Some(Key::Home);
    }
    if str_eq(s, "end") {
        return Some(Key::End);
    }
    if str_eq(s, "space") {
        return Some(Key::Space);
    }
    let n = s.unicode_len();
    if n == 6 && s.get_char(0) == 'c' && s.get_char(1) == 't' && s.get_char(2) == 'r'
        && s.get_char(3) == 'l' && s.get_char(4) == '-' {
        proof {
            assert(s@.take(5) =~= seq!['c', 't', 'r', 'l', '-']);
        }
        return Some(Key::Ctrl(s.get_char(5)));
    }
    proof {
        if s@.len() == 6 && s@.take(5) == seq!['c', 't', 'r', 'l', '-'] {
            assert(s@[0] == s@.take(5)[0]);
            assert(s@[1] == s@.take(5)[1]);
            assert(s@[2] == s@.take(5)[2]);
            assert(s@[3] == s@.take(5)[3]);
            assert(s@[4] == s@.take(5)[4]);
            assert(false);
        }
    }
    if n == 5 && s.get_char(0) == 'a' && s.get_char(1) == 'l' && s.get_char(2) == 't'
        && s.get_char(3) == '-' {
        proof {
            assert(s@.take(4) =~= seq!['a', 'l', 't', '-']);
        }
        return Some(Key::Alt(s.get_char(4)));
    }
    proof {
        if s@.len() == 5 && s@.take(4) == seq!['a', 'l', 't', '-'] {
            assert(s@[0] == s@.take(4)[0]);
            assert(s@[1] == s@.take(4)[1]);
            assert(s@[2] == s@.take(4)[2]);
            assert(s@[3] == s@.take(4)[3]);
            assert(false);
        }
    }
    if n == 1 {
        return Some(Key::Char(s.get_char(0)));
    }
    None
}

/// The keys named by the `--expect` literal's pieces, first occurrence
/// first: empty pieces are skipped after trimming, a piece that names no
/// key is an error, and a repeated key is kept once.
pub open spec fn expect_keys_from(pieces: Seq<Seq<char>>, acc: Seq<Key>) -> Result<
    Seq<Key>,
    CliError,
>
    decreases pieces.len(),
{
    if pieces.len() == 0 {
        Ok(acc)
    } else {
        let t = trim_spec(pieces[0]);
        if t.len() == 0 {
            expect_keys_from(pieces.skip(1), acc)
        } else {
            match parse_key_spec(t) {
                None => Err(CliError::InvalidKeyInExpect),
                Some(k) => if acc.contains(k) {
                    expect_keys_from(pieces.skip(1), acc)
                } else {
                    expect_keys_from(pieces.skip(1), acc.push(k))
                },
            }
        }
    }
}

/// Parses the `--expect` literal: keys separated by `;`, each bound to the
/// expect action for that key.
pub fn parse_expect_bindings(expect: &str) -> (r: Result<KeyBindings, CliError>)
    ensures
        r is Ok <==> expect_keys_from(split_on(expect@, ';'), Seq::<Key>::empty()) is Ok,
        r matches Ok(kb) ==> {
            &&& kb.wf()
            &&& Ok::<Seq<Key>, CliError>(kb.s_keys()) == expect_keys_from(
                split_on(expect@, ';'),
                Seq::<Key>::empty(),
            )
            &&& forall|j: int|
                0 <= j < kb.bindings@.len() ==> (#[trigger] kb.bindings@[j]).1.actions@ == seq![
                    Action::Expect(kb.s_keys()[j]),
                ]
        },
        r matches Err(e) ==> Err::<Seq<Key>, CliError>(e) == expect_keys_from(
            split_on(expect@, ';'),
            Seq::<Key>::empty(),
        ),
{
    let pieces = split_str(expect, ';');
    let ghost ps = split_on(expect@, ';');
    let mut kb = KeyBindings { bindings: Vec::new() };
    let np = pieces.len();
    let mut i: usize = 0;
    proof {
        assert(ps.skip(0) =~= ps);
        assert(kb.s_keys() =~= Seq::<Key>::empty());
    }
    while i < np
        invariant
            ps == split_on(expect@, ';'),
            np == pieces@.len(),
            np == ps.len(),
            forall|k: int| 0 <= k < np ==> (#[trigger] pieces@[k])@ == ps[k],
            0 <= i <= np,
            kb.wf(),
            expect_keys_from(ps, Seq::<Key>::empty()) == expect_keys_from(
                ps.skip(i as int),
                kb.s_keys(),
            ),
            forall|j: int|
                0 <= j < kb.bindings@.len() ==> (#[trigger] kb.bindings@[j]).1.actions@ == seq![
                    Action::Expect(kb.s_keys()[j]),
                ],
        decreases np - i,
    {
        let ghost rest = ps.skip(i as int);
        proof {
            assert(rest[0] == ps[i as int]);
            assert(rest.skip(1) =~= ps.skip(i as int + 1));
        }
        let t = trim_str(pieces[i].as_str());
        proof {
            assert(trim_spec(rest[0]) == t@);
        }
        if t.unicode_len() == 0 {
            proof {
                assert(expect_keys_from(rest, kb.s_keys()) == expect_keys_from(
                    ps.skip(i as int + 1),
                    kb.s_keys(),
                ));
            }
            i = i + 1;
            continue ;
        }
        match parse_key(t.as_str()) {
            None => {
                proof {
                    assert(expect_keys_from(rest, kb.s_keys()) == Err::<Seq<Key>, CliError>(
                        CliError::InvalidKeyInExpect,
                    ));
                }
                return Err(CliError::InvalidKeyInExpect);
            },
            Some(key) => {
                let ghost pre_keys = kb.s_keys();
                if !kb.contains_key(key) {
                    kb.bindings.push((key, Actions::single(Action::Expect(key))));
                    proof {
                        assert(kb.s_keys() =~= pre_keys.push(key));
                        assert(expect_keys_from(rest, pre_keys) == expect_keys_from(
                            ps.skip(i as int + 1),
                            pre_keys.push(key),
                        ));
                    }
                } else {
                    proof {
                        assert(expect_keys_from(rest, pre_keys) == expect_keys_from(
                            ps.skip(i as int + 1),
                            pre_keys,
                        ));
                    }
                }
            },
        }
        i = i + 1;
    }
    proof {
        assert(ps.skip(np as int) =~= Seq::<Seq<char>>::empty());
    }
    Ok(kb)
}

/// What `parse_source_entry_delimiter` makes of the argument's bytes: an
/// empty argument is an error; a backslash escape names newline, tab,
/// carriage return or the null character; otherwise the argument must be a
/// single byte, which is the delimiter.
pub open spec fn delimiter_spec(bytes: Seq<u8>) -> Result<char, CliError> {
    if bytes.len() == 0 {
        Err(CliError::EmptyDelimiter)
    } else if bytes[0] == 92 {
        let rest = bytes.skip(1);
        if rest == seq![110u8] {
            Ok('\n')
        } else if rest == seq![116u8] {
            Ok('\t')
        } else if rest == seq![114u8] {
            Ok('\r')
        } else if rest == seq![48u8] {
            Ok('\0')
        } else {
            Err(CliError::InvalidDelimiterEscape)
        }
    } else if bytes.len() != 1 {
        Err(CliError::DelimiterNotSingleCharacter)
    } else {
        Ok(bytes[0] as char)
    }
}

/// Validates the source-entry delimiter argument: a single character, or a
/// backslash escape for newline, tab, carriage return or null.
pub fn parse_source_entry_delimiter(delimiter: &str) -> (r: Result<char, CliError>)
    ensures
        r == delimiter_spec(delimiter.spec_bytes()),
{
    let b = delimiter.as_bytes();
    let n = b.len();
    if n == 0 {
        return Err(CliError::EmptyDelimiter);
    }
    if b[0] == 92 {
        if n == 2 {
            let c = b[1];
            proof {
                assert(b@.skip(1) =~= seq![b@[1]]);
                if b@[1] != 110 {
                    assert(b@.skip(1) != seq![110u8]) by {
                        if b@.skip(1) == seq![110u8] {
                            assert(b@.skip(1)[0] == seq![110u8][0]);
                        }
                    }
                }
                if b@[1] != 116 {
                    assert(b@.skip(1) != seq![116u8]) by {
                        if b@.skip(1) == seq![116u8] {
                            assert(b@.skip(1)[0] == seq![116u8][0]);
                        }
                    }
                }
                if b@[1] != 114 {
                    assert(b@.skip(1) != seq![114u8]) by {
                        if b@.skip(1) == seq![114u8] {
                            assert(b@.skip(1)[0] == seq![114u8][0]);
                        }
                    }
                }
                if b@[1] != 48 {
                    assert(b@.skip(1) != seq![48u8]) by {
                        if b@.skip(1) == seq![48u8] {
                            assert(b@.skip(1)[0] == seq![48u8][0]);
                        }
                    }
                }
            }
            if c == 110 {
                return Ok('\n');
            }
            if c == 116 {
                return Ok('\t');
            }
            if c == 114 {
                return Ok('\r');
            }
            if c == 48 {
                return Ok('\0');
            }
            return Err(CliError::InvalidDelimiterEscape);
        }
        proof {
            assert(b@.skip(1).len() != 1);
        }
        return Err(CliError::InvalidDelimiterEscape);
    }
    if n != 1 {
        return Err(CliError::DelimiterNotSingleCharacter);
    }
    Ok(b[0] as char)
}

/// The command-line arguments that the pipeline's validation rules read.
#[derive(Clone, Debug)]
pub struct Cli {
    pub channel: Option<String>,
    pub source_command: Option<String>,
    pub source_display: Option<String>,
    pub source_output: Option<String>,
    pub preview_command: Option<String>,
    pub preview_offset: Option<String>,
    pub preview_size: Option<u16>,
    pub preview_header: Option<String>,
    pub preview_footer: Option<String>,
    pub working_directory: Option<String>,
    pub keybindings: Option<String>,
    pub expect: Option<String>,
}

impl Default for Cli {
    /// No arguments given.
    fn default() -> (r: Cli)
        ensures
            r.channel is None,
            r.source_command is None,
            r.source_display is None,
            r.source_output is None,
            r.preview_command is None,
            r.preview_offset is None,
            r.preview_size is None,
            r.preview_header is None,
            r.preview_footer is None,
            r.working_directory is None,
            r.keybindings is None,
            r.expect is None,
    {
        Cli {
            channel: None,
            source_command: None,
            source_display: None,
            source_output: None,
            preview_command: None,
            preview_offset: None,
            preview_size: None,
            preview_header: None,
            preview_footer: None,
            working_directory: None,
            keybindings: None,
            expect: None,
        }
    }
}

/// The ad-hoc mode constraints: with no channel given, source-dependent
/// flags need a source command (unless standard input is readable), and
/// preview-dependent flags need a preview command.  With a channel given,
/// everything is allowed, since the channel provides the defaults.
pub open spec fn adhoc_mode_spec(cli: Cli, readable_stdin: bool) -> Result<(), CliError> {
    if cli.channel is Some {
        Ok(())
    } else if cli.source_command is None && !readable_stdin && (cli.source_display is Some
        || cli.source_output is Some || cli.preview_command is Some) {
        Err(CliError::RequiresSourceCommand)
    } else if cli.preview_command is None && (cli.preview_offset is Some
        || cli.preview_size is Some || cli.preview_header is Some
        || cli.preview_footer is Some) {
        Err(CliError::RequiresPreviewCommand)
    } else {
        Ok(())
    }
}

/// Validates the interdependent flags of ad-hoc mode (no channel given).
pub fn validate_adhoc_mode_constraints(cli: &Cli, readable_stdin: bool) -> (r: Result<
    (),
    CliError,
>)
    ensures
        r == adhoc_mode_spec(*cli, readable_stdin),
{
    if cli.channel.is_some() {
        return Ok(());
    }
    if cli.source_command.is_none() && !readable_stdin {
        if cli.source_display.is_some() || cli.source_output.is_some()
            || cli.preview_command.is_some() {
            return Err(CliError::RequiresSourceCommand);
        }
    }
    if cli.preview_command.is_none() {
        if cli.preview_offset.is_some() || cli.preview_size.is_some()
            || cli.preview_header.is_some() || cli.preview_footer.is_some() {
            return Err(CliError::RequiresPreviewCommand);
        }
    }
    Ok(())
}

/// Whether two strings hold the same characters.
fn str_eq(a: &str, b: &str) -> (r: bool)
    ensures
        r == (a@ == b@),
{
    let na = a.unicode_len();
    let nb = b.unicode_len();
    if na != nb {
        proof {
            if a@ == b@ {
                assert(a@.len() == b@.len());
            }
        }
        return false;
    }
    let mut i: usize = 0;
    while i < na
        invariant
            na == a@.len(),
            nb == b@.len(),
            na == nb,
            0 <= i <= na,
            forall|j: int| 0 <= j < i ==> a@[j] == b@[j],
        decreases na - i,
    {
        if a.get_char(i) != b.get_char(i) {
            proof {
                if a@ == b@ {
                    assert(a@[i as int] == b@[i as int]);
                }
            }
            return false;
        }
        i = i + 1;
    }
    proof {
        assert(a@ =~= b@);
    }
    true
}

} // verus!
