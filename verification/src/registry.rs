//! The segment registry: every distinct segment string seen is assigned
//! one bit position, in first-seen order, never reassigned or reused.
//!
//! A segment's encoded word is its own bit OR-ed with the bits of the
//! aliases declared for that exact segment.  The alias relation is
//! deliberately one-directional: inserting the key also sets each alias's
//! bit, while inserting an alias never sets the key's bit.
//!
//! The registry also carries the per-family pass configuration: the set of
//! combining segments and the ignore rule.
use vstd::prelude::*;
use crate::errors::SelectError;
use crate::text::{is_digit, str_eq, seq_views};

verus! {

/// Which segments a family pass skips: a skipped segment contributes no
/// bits and is never registered.
#[derive(Clone, Copy, Debug, PartialEq, Eq, Structural)]
pub enum IgnoreRule {
    /// Skip nothing.
    Never,
    /// Skip segments of eight digits, a dash, and at least one digit.
    DateSerial,
    /// Skip segments of eight digits, optionally followed by a dot and at
    /// least one digit.
    DateRevision,
}

/// Whether `rule` skips the segment `s`.
pub open spec fn spec_ignores(rule: IgnoreRule, s: Seq<char>) -> bool {
    match rule {
        IgnoreRule::Never => false,
        IgnoreRule::DateSerial => s.len() >= 10 && (forall|k: int|
            0 <= k < 8 ==> is_digit(s[k])) && s[8] == '-' && (forall|k: int|
            9 <= k < s.len() ==> is_digit(s[k])),
        IgnoreRule::DateRevision => (s.len() == 8 && (forall|k: int|
            0 <= k < 8 ==> is_digit(s[k]))) || (s.len() >= 10 && (forall|k: int|
            0 <= k < 8 ==> is_digit(s[k])) && s[8] == '.' && (forall|k: int|
            9 <= k < s.len() ==> is_digit(s[k]))),
    }
}

/// The mathematical state of a registry: the registered segments in bit
/// order, the combining segments, the alias table, and the ignore rule.
#[verifier::ext_equal]
pub struct RegView {
    pub names: Seq<Seq<char>>,
    pub combining: Seq<Seq<char>>,
    pub aliases: Seq<(Seq<char>, Seq<Seq<char>>)>,
    pub ignore: IgnoreRule,
}

/// The index of the first element of `l` equal to `s`, or -1 if none.
pub open spec fn first_index(l: Seq<Seq<char>>, s: Seq<char>) -> int
    decreases l.len(),
{
    if l.len() == 0 {
        -1
    } else if l[0] == s {
        0
    } else {
        let r = first_index(l.skip(1), s);
        if r == -1 {
            -1
        } else {
            r + 1
        }
    }
}

/// `first_index` finds the first occurrence, and -1 means there is none.
pub proof fn lemma_first_index(l: Seq<Seq<char>>, s: Seq<char>)
    ensures
        first_index(l, s) == -1 ==> forall|k: int| 0 <= k < l.len() ==> l[k] != s,
        first_index(l, s) != -1 ==> {
            &&& 0 <= first_index(l, s) < l.len()
            &&& l[first_index(l, s)] == s
            &&& forall|k: int| 0 <= k < first_index(l, s) ==> l[k] != s
        },
    decreases l.len(),
{
    if l.len() == 0 {
    } else if l[0] == s {
    } else {
        lemma_first_index(l.skip(1), s);
        assert(forall|k: int| 1 <= k < l.len() ==> l[k] == l.skip(1)[k - 1]);
    }
}

/// The first index is the witness index when one is given.
pub proof fn lemma_first_index_unique(l: Seq<Seq<char>>, s: Seq<char>, i: int)
    requires
        0 <= i < l.len(),
        l[i] == s,
        forall|k: int| 0 <= k < i ==> l[k] != s,
    ensures
        first_index(l, s) == i,
    decreases l.len(),
{
    if i == 0 {
    } else {
        assert(l[0] != s);
        assert(l.skip(1)[i - 1] == l[i]);
        assert(forall|k: int| 0 <= k < i - 1 ==> l.skip(1)[k] == l[k + 1]);
        lemma_first_index_unique(l.skip(1), s, i - 1);
    }
}

/// Appending a new element never moves an existing first occurrence, and
/// gives the appended element the next index if it was absent.
pub proof fn lemma_first_index_push(l: Seq<Seq<char>>, s: Seq<char>, x: Seq<char>)
    ensures
        first_index(l.push(x), s) == (if first_index(l, s) != -1 {
            first_index(l, s)
        } else if x == s {
            l.len() as int
        } else {
            -1
        }),
{
    lemma_first_index(l, s);
    let i = first_index(l, s);
    if i != -1 {
        assert(l.push(x)[i] == s);
        assert(forall|k: int| 0 <= k < i ==> l.push(x)[k] == l[k]);
        lemma_first_index_unique(l.push(x), s, i);
    } else if x == s {
        assert(l.push(x)[l.len() as int] == s);
        assert(forall|k: int| 0 <= k < l.len() ==> l.push(x)[k] == l[k]);
        lemma_first_index_unique(l.push(x), s, l.len() as int);
    } else {
        lemma_first_index(l.push(x), s);
        let j = first_index(l.push(x), s);
        if j != -1 {
            assert(l.push(x)[j] == s);
            if j < l.len() {
                assert(l[j] != s);
                assert(l.push(x)[j] == l[j]);
            } else {
                assert(l.push(x)[j] == x);
            }
            assert(false);
        }
    }
}

/// Whether `s` has been assigned a bit in `r`.
pub open spec fn registered(r: RegView, s: Seq<char>) -> bool {
    r.names.contains(s)
}

/// The bit position assigned to `s`.
pub open spec fn bit_of(r: RegView, s: Seq<char>) -> int {
    first_index(r.names, s)
}

/// The single-bit word of the segment `s`.
pub open spec fn word_bit(r: RegView, s: Seq<char>) -> u128 {
    1u128 << (bit_of(r, s) as u128)
}

/// The aliases declared for `key`: the alias list of the first table entry
/// for `key`, or empty if none.
pub open spec fn aliases_of(entries: Seq<(Seq<char>, Seq<Seq<char>>)>, key: Seq<char>) -> Seq<
    Seq<char>,
>
    decreases entries.len(),
{
    if entries.len() == 0 {
        Seq::empty()
    } else if entries[0].0 == key {
        entries[0].1
    } else {
        aliases_of(entries.skip(1), key)
    }
}

/// The OR of the bits of the first `n` segments of `l`.
pub open spec fn or_bits(r: RegView, l: Seq<Seq<char>>, n: int) -> u128
    decreases n,
{
    if n <= 0 {
        0
    } else {
        or_bits(r, l, n - 1) | word_bit(r, l[n - 1])
    }
}

/// Registration of `s` regardless of the ignore rule: already-registered
/// segments keep their bit, a new one takes the next bit.
pub open spec fn reg_add(r: RegView, s: Seq<char>) -> RegView {
    if registered(r, s) {
        r
    } else {
        RegView { names: r.names.push(s), ..r }
    }
}

/// Whether registering `s` stays within the bit width.
pub open spec fn reg_add_ok(r: RegView, s: Seq<char>) -> bool {
    registered(r, s) || r.names.len() < 128
}

/// The registry state after inserting `s`: unchanged when the ignore rule
/// skips `s`, else `s` is registered.
pub open spec fn ins_reg(r: RegView, s: Seq<char>) -> RegView {
    if spec_ignores(r.ignore, s) {
        r
    } else {
        reg_add(r, s)
    }
}

/// Whether inserting `s` stays within the bit width.
pub open spec fn ins_ok(r: RegView, s: Seq<char>) -> bool {
    spec_ignores(r.ignore, s) || reg_add_ok(r, s)
}

/// The own-bit part of inserting `s`: zero when skipped.
pub open spec fn ins_word(r: RegView, s: Seq<char>) -> u128 {
    if spec_ignores(r.ignore, s) {
        0
    } else {
        word_bit(reg_add(r, s), s)
    }
}

/// The full word returned for inserting `s`: its own bit (or zero when
/// skipped) OR-ed with the bit of every alias declared for `s`.
pub open spec fn spec_insert_word(r: RegView, s: Seq<char>) -> u128 {
    ins_word(r, s) | or_bits(ins_reg(r, s), aliases_of(r.aliases, s), aliases_of(
        r.aliases,
        s,
    ).len() as int)
}

/// Well-formedness: at most 128 segments, all distinct, and every segment
/// in the alias table (keys and aliases) registered, with distinct keys.
pub open spec fn wf(r: RegView) -> bool {
    &&& r.names.len() <= 128
    &&& forall|i: int, j: int| 0 <= i < j < r.names.len() ==> r.names[i] != r.names[j]
    &&& forall|i: int| 0 <= i < r.aliases.len() ==> registered(r, #[trigger] r.aliases[i].0)
    &&& forall|i: int, k: int|
        0 <= i < r.aliases.len() && 0 <= k < r.aliases[i].1.len() ==> registered(
            r,
            #[trigger] r.aliases[i].1[k],
        )
    &&& forall|i: int, j: int| 0 <= i < j < r.aliases.len() ==> r.aliases[i].0 != r.aliases[j].0
}

/// The segment registry with its per-pass configuration.
pub struct StringsToBitmask {
    names: Vec<String>,
    combining: Vec<String>,
    aliases: Vec<(String, Vec<String>)>,
    ignore_rule: IgnoreRule,
}

impl View for StringsToBitmask {
    type V = RegView;

    closed spec fn view(&self) -> RegView {
        RegView {
            names: seq_views(self.names@),
            combining: seq_views(self.combining@),
            aliases: Seq::new(
                self.aliases@.len(),
                |i: int| (self.aliases@[i].0@, seq_views(self.aliases@[i].1@)),
            ),
            ignore: self.ignore_rule,
        }
    }
}

impl StringsToBitmask {
    /// An empty registry: no segments, no combining set, no aliases, and
    /// an ignore rule that skips nothing.
    pub fn new() -> (r: Self)
        ensures
            r@.names.len() == 0,
            r@.combining.len() == 0,
            r@.aliases.len() == 0,
            r@.ignore == IgnoreRule::Never,
            wf(r@),
    {
        let r = StringsToBitmask {
            names: Vec::new(),
            combining: Vec::new(),
            aliases: Vec::new(),
            ignore_rule: IgnoreRule::Never,
        };
        r
    }

    /// Whether the current ignore rule skips `s`.
    pub fn ignores(&self, s: &str) -> (r: bool)
        ensures
            r == spec_ignores(self@.ignore, s@),
    {
        match self.ignore_rule {
            IgnoreRule::Never => false,
            IgnoreRule::DateSerial => {
                let n = s.unicode_len();
                n >= 10 && crate::text::all_digits(s, 0, 8) && s.get_char(8) == '-'
                    && crate::text::all_digits(s, 9, n)
            },
            IgnoreRule::DateRevision => {
                let n = s.unicode_len();
                if n == 8 {
                    crate::text::all_digits(s, 0, 8)
                } else {
                    n >= 10 && crate::text::all_digits(s, 0, 8) && s.get_char(8) == '.'
                        && crate::text::all_digits(s, 9, n)
                }
            },
        }
    }

    /// The bit already assigned to `key`, if any.
    fn lookup(&self, key: &str) -> (r: Option<usize>)
        ensures
            match r {
                Some(i) => 0 <= i < self@.names.len() && first_index(self@.names, key@) == i,
                None => first_index(self@.names, key@) == -1,
            },
    {
        proof {
            lemma_first_index(self@.names, key@);
        }
        let n = self.names.len();
        let mut i: usize = 0;
        while i < n
            invariant
                0 <= i <= n == self@.names.len(),
                forall|k: int| 0 <= k < i ==> self@.names[k] != key@,
                first_index(self@.names, key@) != -1 ==> {
                    &&& 0 <= first_index(self@.names, key@) < self@.names.len()
                    &&& self@.names[first_index(self@.names, key@)] == key@
                    &&& forall|k: int| 0 <= k < first_index(self@.names, key@)
                        ==> self@.names[k] != key@
                },
                first_index(self@.names, key@) == -1 ==> forall|k: int|
                    0 <= k < self@.names.len() ==> self@.names[k] != key@,
            decreases n - i,
        {
            if str_eq(self.names[i].as_str(), key) {
                proof {
                    assert(self@.names[i as int] == key@);
                    if first_index(self@.names, key@) == -1 {
                        assert(false);
                    }
                    if first_index(self@.names, key@) < i {
                        assert(self@.names[first_index(self@.names, key@)] == key@);
                        assert(false);
                    }
                    if first_index(self@.names, key@) > i {
                        assert(false);
                    }
                }
                return Some(i);
            }
            i = i + 1;
        }
        proof {
            if first_index(self@.names, key@) != -1 {
                assert(self@.names[first_index(self@.names, key@)] == key@);
                assert(false);
            }
        }
        None
    }

    /// Registers `key` regardless of the ignore rule and returns its
    /// single-bit word; used when declaring aliases, whose two sides are
    /// always registered.
    fn register(&mut self, key: &str) -> (r: Result<u128, SelectError>)
        requires
            wf(old(self)@),
        ensures
            wf(final(self)@),
            reg_add_ok(old(self)@, key@) ==> r == Ok::<u128, SelectError>(
                word_bit(reg_add(old(self)@, key@), key@),
            ) && final(self)@ == reg_add(old(self)@, key@),
            !reg_add_ok(old(self)@, key@) ==> r == Err::<u128, SelectError>(
                SelectError::ConfigurationExhausted,
            ) && *final(self) == *old(self),
    {
        proof {
            lemma_first_index(self@.names, key@);
        }
        match self.lookup(key) {
            Some(i) => {
                proof {
                    assert(registered(self@, key@));
                    assert(reg_add(self@, key@) == self@);
                    assert(i < 128);
                }
                Ok(1u128 << (i as u128))
            },
            None => {
                proof {
                    assert(!registered(self@, key@));
                }
                if self.names.len() >= 128 {
                    return Err(SelectError::ConfigurationExhausted);
                }
                let ghost old_view = self@;
                let n = self.names.len();
                self.names.push(key.to_owned());
                proof {
                    assert(seq_views(self.names@) =~= old_view.names.push(key@));
                    assert(self@ =~= RegView { names: old_view.names.push(key@), ..old_view });
                    lemma_first_index_push(old_view.names, key@, key@);
                    assert(bit_of(self@, key@) == n as int);
                    lemma_wf_push(old_view, key@);
                }
                Ok(1u128 << (n as u128))
            },
        }
    }

    /// Inserts `key` under the current ignore rule and returns its own-bit
    /// word: zero when the rule skips it, its bit otherwise.
    fn insert_one(&mut self, key: &str) -> (r: Result<u128, SelectError>)
        requires
            wf(old(self)@),
        ensures
            wf(final(self)@),
            ins_ok(old(self)@, key@) ==> r == Ok::<u128, SelectError>(ins_word(old(self)@, key@))
                && final(self)@ == ins_reg(old(self)@, key@),
            !ins_ok(old(self)@, key@) ==> r == Err::<u128, SelectError>(
                SelectError::ConfigurationExhausted,
            ) && *final(self) == *old(self),
    {
        if self.ignores(key) {
            return Ok(0);
        }
        self.register(key)
    }

    /// Inserts `key` and returns its full word: its own bit (zero when the
    /// ignore rule skips it) OR-ed with the bit of every alias declared
    /// for `key`.
    #[verifier::loop_isolation(false)]
    pub fn insert(&mut self, key: &str) -> (r: Result<u128, SelectError>)
        requires
            wf(old(self)@),
        ensures
            wf(final(self)@),
            ins_ok(old(self)@, key@) ==> r == Ok::<u128, SelectError>(
                spec_insert_word(old(self)@, key@),
            ) && final(self)@ == ins_reg(old(self)@, key@),
            !ins_ok(old(self)@, key@) ==> r == Err::<u128, SelectError>(
                SelectError::ConfigurationExhausted,
            ) && *final(self) == *old(self),
    {
        let ghost r0 = self@;
        let base = match self.insert_one(key) {
            Ok(w) => w,
            Err(e) => {
                return Err(e);
            },
        };
        let ghost r1 = self@;
        proof {
            assert(r1.aliases =~= r0.aliases);
        }
        let mut acc: u128 = base;
        let mut entry: usize = 0;
        let n_entries = self.aliases.len();
        let ghost al = aliases_of(r0.aliases, key@);
        while entry < n_entries
            invariant
                0 <= entry <= n_entries,
                forall|k: int| 0 <= k < entry ==> self@.aliases[k].0 != key@,
                acc == base,
            decreases n_entries - entry,
        {
            if str_eq(self.aliases[entry].0.as_str(), key) {
                proof {
                    assert(self@.aliases[entry as int].0 == key@);
                    lemma_aliases_of_at(r0.aliases, key@, entry as int);
                    assert(al == self@.aliases[entry as int].1);
                    lemma_or_zero(base);
                }
                let list_len = self.aliases[entry].1.len();
                let mut k: usize = 0;
                while k < list_len
                    invariant
                        0 <= k <= list_len == al.len(),
                        acc == base | or_bits(r1, al, k as int),
                    decreases list_len - k,
                {
                    proof {
                        assert(al[k as int] == self@.aliases[entry as int].1[k as int]);
                        assert(registered(r1, al[k as int]));
                        lemma_contains_first_index(r1.names, al[k as int]);
                    }
                    let b = match self.lookup(self.aliases[entry].1[k].as_str()) {
                        Some(b) => b,
                        None => {
                            proof {
                                assert(false);
                            }
                            0
                        },
                    };
                    proof {
                        assert((1u128 << (b as u128)) == word_bit(r1, al[k as int]));
                        lemma_or_assoc(base, or_bits(r1, al, k as int), word_bit(r1, al[k as int]));
                    }
                    acc = acc | (1u128 << (b as u128));
                    k = k + 1;
                }
                return Ok(acc);
            }
            entry = entry + 1;
        }
        proof {
            lemma_aliases_of_none(r0.aliases, key@);
            assert(aliases_of(r0.aliases, key@).len() == 0);
            lemma_or_zero(base);
        }
        Ok(acc)
    }
}

/// The index of the first alias-table entry for `key`, or -1 if none.
pub open spec fn key_index(entries: Seq<(Seq<char>, Seq<Seq<char>>)>, key: Seq<char>) -> int
    decreases entries.len(),
{
    if entries.len() == 0 {
        -1
    } else if entries[0].0 == key {
        0
    } else {
        let r = key_index(entries.skip(1), key);
        if r == -1 {
            -1
        } else {
            r + 1
        }
    }
}

/// `key_index` finds the first entry for `key`, and -1 means none exists.
pub proof fn lemma_key_index(entries: Seq<(Seq<char>, Seq<Seq<char>>)>, key: Seq<char>)
    ensures
        key_index(entries, key) == -1 ==> forall|k: int|
            0 <= k < entries.len() ==> entries[k].0 != key,
        key_index(entries, key) != -1 ==> {
            &&& 0 <= key_index(entries, key) < entries.len()
            &&& entries[key_index(entries, key)].0 == key
            &&& forall|k: int| 0 <= k < key_index(entries, key) ==> entries[k].0 != key
        },
    decreases entries.len(),
{
    if entries.len() == 0 {
    } else if entries[0].0 == key {
    } else {
        lemma_key_index(entries.skip(1), key);
        assert(forall|k: int| 1 <= k < entries.len() ==> entries[k] == entries.skip(1)[k - 1]);
    }
}

/// The alias table after declaring `al` as an alias of `key`: the alias is
/// appended to the entry for `key`, which is created if absent.
pub open spec fn spec_alias_table(
    entries: Seq<(Seq<char>, Seq<Seq<char>>)>,
    key: Seq<char>,
    al: Seq<char>,
) -> Seq<(Seq<char>, Seq<Seq<char>>)> {
    let i = key_index(entries, key);
    if i == -1 {
        entries.push((key, seq![al]))
    } else {
        entries.update(i, (key, entries[i].1.push(al)))
    }
}

/// The registry after declaring `al` as an alias of `key`: both sides are
/// registered, and the alias table gains the one-directional link.
pub open spec fn spec_alias(r: RegView, key: Seq<char>, al: Seq<char>) -> RegView {
    let r2 = reg_add(reg_add(r, key), al);
    RegView { aliases: spec_alias_table(r.aliases, key, al), ..r2 }
}

/// Whether declaring the alias stays within the bit width.
pub open spec fn spec_alias_ok(r: RegView, key: Seq<char>, al: Seq<char>) -> bool {
    reg_add_ok(r, key) && reg_add_ok(reg_add(r, key), al)
}

impl StringsToBitmask {
    /// Declares `al` as an alias of `key`.  Both are registered at once,
    /// whatever the ignore rule says; from then on inserting `key` also
    /// yields `al`'s bit, while inserting `al` never yields `key`'s bit.
    #[verifier::loop_isolation(false)]
    pub fn alias(&mut self, key: &str, al: &str) -> (r: Result<(), SelectError>)
        requires
            wf(old(self)@),
        ensures
            wf(final(self)@),
            spec_alias_ok(old(self)@, key@, al@) ==> r == Ok::<(), SelectError>(())
                && final(self)@ == spec_alias(old(self)@, key@, al@),
            !spec_alias_ok(old(self)@, key@, al@) ==> r == Err::<(), SelectError>(
                SelectError::ConfigurationExhausted,
            ),
    {
        let ghost r0 = self@;
        match self.register(key) {
            Ok(_) => (),
            Err(e) => {
                return Err(e);
            },
        }
        match self.register(al) {
            Ok(_) => (),
            Err(e) => {
                return Err(e);
            },
        }
        let ghost r2 = self@;
        proof {
            lemma_reg_add_facts(r0, key@);
            lemma_reg_add_facts(reg_add(r0, key@), al@);
            assert(r2.aliases =~= r0.aliases);
            lemma_key_index(r0.aliases, key@);
        }
        let n_entries = self.aliases.len();
        let mut entry: usize = 0;
        while entry < n_entries
            invariant
                self@ == r2,
                0 <= entry <= n_entries == self@.aliases.len(),
                forall|k: int| 0 <= k < entry ==> self@.aliases[k].0 != key@,
            decreases n_entries - entry,
        {
            if str_eq(self.aliases[entry].0.as_str(), key) {
                proof {
                    assert(self@.aliases[entry as int].0 == key@);
                    assert(key_index(r0.aliases, key@) == entry as int);
                }
                let pair = self.aliases.remove(entry);
                let (key_owned, mut list) = pair;
                list.push(al.to_owned());
                self.aliases.insert(entry, (key_owned, list));
                proof {
                    assert(self@.aliases =~~= r2.aliases.update(
                        entry as int,
                        (key@, r2.aliases[entry as int].1.push(al@)),
                    ));
                    assert(self@ =~~= spec_alias(r0, key@, al@));
                    lemma_wf_alias_update(r2, entry as int, al@);
                    assert(wf(self@));
                }
                return Ok(());
            }
            entry = entry + 1;
        }
        proof {
            assert(key_index(r0.aliases, key@) == -1);
        }
        let mut list: Vec<String> = Vec::new();
        list.push(al.to_owned());
        self.aliases.push((key.to_owned(), list));
        proof {
            assert(self@.aliases =~~= r2.aliases.push((key@, seq![al@])));
            assert(self@ =~~= spec_alias(r0, key@, al@));
            lemma_wf_alias_push(r2, key@, al@);
            assert(wf(self@));
        }
        Ok(())
    }

    /// Marks `key` as a combining segment: when met in idle state it is
    /// held back and joined with the following segment.
    pub fn combining(&mut self, key: &str)
        ensures
            final(self)@ == (RegView { combining: old(self)@.combining.push(key@), ..old(self)@ }),
            wf(old(self)@) ==> wf(final(self)@),
    {
        self.combining.push(key.to_owned());
        proof {
            assert(final(self)@ =~~= (RegView {
                combining: old(self)@.combining.push(key@),
                ..old(self)@
            }));
        }
    }

    /// Empties the combining set.
    pub fn clear_combining(&mut self)
        ensures
            final(self)@ == (RegView { combining: Seq::empty(), ..old(self)@ }),
            wf(old(self)@) ==> wf(final(self)@),
    {
        self.combining = Vec::new();
        proof {
            assert(final(self)@ =~~= (RegView { combining: Seq::empty(), ..old(self)@ }));
        }
    }

    /// Sets the ignore rule for the coming pass.
    pub fn ignore(&mut self, rule: IgnoreRule)
        ensures
            final(self)@ == (RegView { ignore: rule, ..old(self)@ }),
            wf(old(self)@) ==> wf(final(self)@),
    {
        self.ignore_rule = rule;
        proof {
            assert(final(self)@ =~~= (RegView { ignore: rule, ..old(self)@ }));
        }
    }

    /// Restores the ignore rule that skips nothing.
    pub fn clear_ignore(&mut self)
        ensures
            final(self)@ == (RegView { ignore: IgnoreRule::Never, ..old(self)@ }),
            wf(old(self)@) ==> wf(final(self)@),
    {
        self.ignore_rule = IgnoreRule::Never;
        proof {
            assert(final(self)@ =~~= (RegView { ignore: IgnoreRule::Never, ..old(self)@ }));
        }
    }

    /// Whether `key` is in the combining set.
    pub fn is_combining(&self, key: &str) -> (r: bool)
        ensures
            r == self@.combining.contains(key@),
    {
        let n = self.combining.len();
        let mut i: usize = 0;
        while i < n
            invariant
                0 <= i <= n == self@.combining.len(),
                forall|k: int| 0 <= k < i ==> self@.combining[k] != key@,
            decreases n - i,
        {
            if str_eq(self.combining[i].as_str(), key) {
                proof {
                    assert(self@.combining[i as int] == key@);
                }
                return true;
            }
            i = i + 1;
        }
        false
    }
}

/// Registering a segment makes it registered and keeps every registered
/// segment registered.
pub proof fn lemma_reg_add_facts(r: RegView, s: Seq<char>)
    ensures
        registered(reg_add(r, s), s),
        forall|t: Seq<char>| registered(r, t) ==> registered(reg_add(r, s), t),
{
    if !registered(r, s) {
        assert(r.names.push(s)[r.names.len() as int] == s);
        assert(reg_add(r, s).names.contains(s));
    }
    assert forall|t: Seq<char>| registered(r, t) implies registered(reg_add(r, s), t) by {
        let w = choose|w: int| 0 <= w < r.names.len() && r.names[w] == t;
        if !registered(r, s) {
            assert(reg_add(r, s).names[w] == t);
        }
    }
}

/// Appending an alias to an existing entry preserves well-formedness when
/// the alias is registered.
proof fn lemma_wf_alias_update(r: RegView, i: int, al: Seq<char>)
    requires
        wf(r),
        0 <= i < r.aliases.len(),
        registered(r, al),
    ensures
        wf(
            RegView {
                aliases: r.aliases.update(i, (r.aliases[i].0, r.aliases[i].1.push(al))),
                ..r
            },
        ),
{
    let r2 = RegView {
        aliases: r.aliases.update(i, (r.aliases[i].0, r.aliases[i].1.push(al))),
        ..r
    };
    assert forall|w: int| 0 <= w < r2.aliases.len() implies registered(
        r2,
        #[trigger] r2.aliases[w].0,
    ) by {
        assert(registered(r, r.aliases[w].0));
    }
    assert forall|w: int, k: int|
        0 <= w < r2.aliases.len() && 0 <= k < r2.aliases[w].1.len() implies registered(
        r2,
        #[trigger] r2.aliases[w].1[k],
    ) by {
        if w == i && k == r.aliases[i].1.len() {
        } else {
            assert(r2.aliases[w].1[k] == r.aliases[w].1[k]);
            assert(registered(r, r.aliases[w].1[k]));
        }
    }
    assert forall|w: int, j: int| 0 <= w < j < r2.aliases.len() implies r2.aliases[w].0
        != r2.aliases[j].0 by {
        assert(r.aliases[w].0 != r.aliases[j].0);
    }
}

/// Adding a fresh alias entry preserves well-formedness when both sides
/// are registered and no entry for the key exists.
proof fn lemma_wf_alias_push(r: RegView, key: Seq<char>, al: Seq<char>)
    requires
        wf(r),
        registered(r, key),
        registered(r, al),
        forall|k: int| 0 <= k < r.aliases.len() ==> r.aliases[k].0 != key,
    ensures
        wf(RegView { aliases: r.aliases.push((key, seq![al])), ..r }),
{
    let r2 = RegView { aliases: r.aliases.push((key, seq![al])), ..r };
    assert forall|w: int| 0 <= w < r2.aliases.len() implies registered(
        r2,
        #[trigger] r2.aliases[w].0,
    ) by {
        if w < r.aliases.len() {
            assert(registered(r, r.aliases[w].0));
        }
    }
    assert forall|w: int, k: int|
        0 <= w < r2.aliases.len() && 0 <= k < r2.aliases[w].1.len() implies registered(
        r2,
        #[trigger] r2.aliases[w].1[k],
    ) by {
        if w < r.aliases.len() {
            assert(registered(r, r.aliases[w].1[k]));
        } else {
            assert(r2.aliases[w].1 =~= seq![al]);
        }
    }
    assert forall|w: int, j: int| 0 <= w < j < r2.aliases.len() implies r2.aliases[w].0
        != r2.aliases[j].0 by {
        if j < r.aliases.len() {
            assert(r.aliases[w].0 != r.aliases[j].0);
        } else {
            assert(r2.aliases[j].0 == key);
        }
    }
}

/// OR with zero is the identity.
pub proof fn lemma_or_zero(a: u128)
    ensures
        a | 0 == a,
{
    assert(a | 0 == a) by (bit_vector);
}

/// Bitwise OR is associative.
pub proof fn lemma_or_assoc(a: u128, b: u128, c: u128)
    ensures
        (a | b) | c == a | (b | c),
{
    assert((a | b) | c == a | (b | c)) by (bit_vector);
}

/// Registering a fresh segment preserves well-formedness.
proof fn lemma_wf_push(r: RegView, s: Seq<char>)
    requires
        wf(r),
        !registered(r, s),
        r.names.len() < 128,
    ensures
        wf(RegView { names: r.names.push(s), ..r }),
{
    let r2 = RegView { names: r.names.push(s), ..r };
    assert forall|i: int, j: int| 0 <= i < j < r2.names.len() implies r2.names[i] != r2.names[j] by {
        if j < r.names.len() {
        } else {
            assert(r2.names[j] == s);
            assert(r.names.contains(r.names[i]));
        }
    }
    assert forall|i: int| 0 <= i < r2.aliases.len() implies registered(
        r2,
        #[trigger] r2.aliases[i].0,
    ) by {
        assert(registered(r, r.aliases[i].0));
        let w = choose|w: int| 0 <= w < r.names.len() && r.names[w] == r.aliases[i].0;
        assert(r2.names[w] == r.aliases[i].0);
    }
    assert forall|i: int, k: int|
        0 <= i < r2.aliases.len() && 0 <= k < r2.aliases[i].1.len() implies registered(
        r2,
        #[trigger] r2.aliases[i].1[k],
    ) by {
        assert(registered(r, r.aliases[i].1[k]));
        let w = choose|w: int| 0 <= w < r.names.len() && r.names[w] == r.aliases[i].1[k];
        assert(r2.names[w] == r.aliases[i].1[k]);
    }
}

/// A contained element's first index is in range.
pub proof fn lemma_contains_first_index(l: Seq<Seq<char>>, s: Seq<char>)
    requires
        l.contains(s),
    ensures
        0 <= first_index(l, s) < l.len(),
        l[first_index(l, s)] == s,
{
    lemma_first_index(l, s);
    if first_index(l, s) == -1 {
        let w = choose|w: int| 0 <= w < l.len() && l[w] == s;
        assert(false);
    }
}

/// When entry `i` is the first with key `key`, the alias list of `key` is
/// that entry's list.
proof fn lemma_aliases_of_at(entries: Seq<(Seq<char>, Seq<Seq<char>>)>, key: Seq<char>, i: int)
    requires
        0 <= i < entries.len(),
        entries[i].0 == key,
        forall|k: int| 0 <= k < i ==> entries[k].0 != key,
    ensures
        aliases_of(entries, key) == entries[i].1,
    decreases i,
{
    if i == 0 {
    } else {
        assert(forall|k: int| 0 <= k < i - 1 ==> entries.skip(1)[k] == entries[k + 1]);
        lemma_aliases_of_at(entries.skip(1), key, i - 1);
    }
}

/// When no entry has key `key`, the alias list of `key` is empty.
proof fn lemma_aliases_of_none(entries: Seq<(Seq<char>, Seq<Seq<char>>)>, key: Seq<char>)
    requires
        forall|k: int| 0 <= k < entries.len() ==> entries[k].0 != key,
    ensures
        aliases_of(entries, key) == Seq::<Seq<char>>::empty(),
    decreases entries.len(),
{
    if entries.len() > 0 {
        assert(forall|k: int| 0 <= k < entries.len() - 1 ==> entries.skip(1)[k] == entries[k + 1]);
        lemma_aliases_of_none(entries.skip(1), key);
    }
}


/// The state of one bitmask-building run: the bits gathered so far and a
/// combining segment held back, waiting for its partner.
#[verifier::ext_equal]
pub struct BuilderView {
    pub bitmask: u128,
    pub contained: Option<Seq<char>>,
}

/// A pending combining segment joined to the segment that follows it.
pub open spec fn spec_joined(t: Seq<char>, s: Seq<char>) -> Seq<char> {
    t + seq!['-'] + s
}

/// One step of the combining automaton on segment `s`: a pending segment
/// joins `s` and the joint is inserted; otherwise a combining segment is
/// held back, and any other segment is inserted directly.
pub open spec fn spec_update_one(r: RegView, b: BuilderView, s: Seq<char>) -> (RegView, BuilderView) {
    match b.contained {
        Some(t) => (
            ins_reg(r, spec_joined(t, s)),
            BuilderView { bitmask: b.bitmask | spec_insert_word(r, spec_joined(t, s)), contained: None },
        ),
        None => if r.combining.contains(s) {
            (r, BuilderView { bitmask: b.bitmask, contained: Some(s) })
        } else {
            (
                ins_reg(r, s),
                BuilderView { bitmask: b.bitmask | spec_insert_word(r, s), contained: None },
            )
        },
    }
}

/// Whether the step on `s` stays within the bit width.
pub open spec fn spec_update_one_ok(r: RegView, b: BuilderView, s: Seq<char>) -> bool {
    match b.contained {
        Some(t) => ins_ok(r, spec_joined(t, s)),
        None => r.combining.contains(s) || ins_ok(r, s),
    }
}

/// The automaton run over the first `n` segments of `toks`.
pub open spec fn spec_update_seq(r: RegView, b: BuilderView, toks: Seq<Seq<char>>, n: int) -> (
    RegView,
    BuilderView,
)
    decreases n,
{
    if n <= 0 {
        (r, b)
    } else {
        let prev = spec_update_seq(r, b, toks, n - 1);
        spec_update_one(prev.0, prev.1, toks[n - 1])
    }
}

/// Whether every step of the run over the first `n` segments stays within
/// the bit width.
pub open spec fn spec_update_seq_ok(r: RegView, b: BuilderView, toks: Seq<Seq<char>>, n: int) -> bool
    decreases n,
{
    if n <= 0 {
        true
    } else {
        let prev = spec_update_seq(r, b, toks, n - 1);
        spec_update_seq_ok(r, b, toks, n - 1) && spec_update_one_ok(prev.0, prev.1, toks[n - 1])
    }
}

/// The end of a run: a still-pending combining segment is flushed alone.
pub open spec fn spec_finalize(r: RegView, b: BuilderView) -> (RegView, u128) {
    match b.contained {
        Some(t) => (ins_reg(r, t), b.bitmask | spec_insert_word(r, t)),
        None => (r, b.bitmask),
    }
}

/// Whether the flush stays within the bit width.
pub open spec fn spec_finalize_ok(r: RegView, b: BuilderView) -> bool {
    match b.contained {
        Some(t) => ins_ok(r, t),
        None => true,
    }
}

/// The empty builder state.
pub open spec fn empty_builder() -> BuilderView {
    BuilderView { bitmask: 0, contained: None }
}

/// The full encoding of a segment sequence: run the automaton over every
/// segment, then flush; yields the final registry and the bitmask.
pub open spec fn spec_encode_seq(r: RegView, toks: Seq<Seq<char>>) -> (RegView, u128) {
    let run = spec_update_seq(r, empty_builder(), toks, toks.len() as int);
    spec_finalize(run.0, run.1)
}

/// Whether the full encoding stays within the bit width.
pub open spec fn spec_encode_seq_ok(r: RegView, toks: Seq<Seq<char>>) -> bool {
    let run = spec_update_seq(r, empty_builder(), toks, toks.len() as int);
    spec_update_seq_ok(r, empty_builder(), toks, toks.len() as int) && spec_finalize_ok(run.0, run.1)
}

/// A run that has failed by step `i` has failed at every later cut.
pub proof fn lemma_update_seq_not_ok(r: RegView, b: BuilderView, toks: Seq<Seq<char>>, i: int, n: int)
    requires
        0 <= i <= n,
        !spec_update_seq_ok(r, b, toks, i),
    ensures
        !spec_update_seq_ok(r, b, toks, n),
    decreases n - i,
{
    if i < n {
        lemma_update_seq_not_ok(r, b, toks, i, n - 1);
    }
}

/// Drives the combining automaton over a sequence of segments, gathering
/// their bits into one bitmask.
pub struct StringsToBitmaskBuilder {
    bitmask: u128,
    contained: Option<String>,
}

impl View for StringsToBitmaskBuilder {
    type V = BuilderView;

    closed spec fn view(&self) -> BuilderView {
        BuilderView {
            bitmask: self.bitmask,
            contained: match self.contained {
                Some(ref t) => Some(t@),
                None => None,
            },
        }
    }
}

impl StringsToBitmaskBuilder {
    /// A builder with no bits gathered and nothing pending.
    pub fn new() -> (r: Self)
        ensures
            r@ == empty_builder(),
    {
        let r = StringsToBitmaskBuilder { bitmask: 0, contained: None };
        proof {
            assert(r@ =~= empty_builder());
        }
        r
    }

    /// Inserts `key` into the registry and ORs its word into the bitmask.
    fn update_bitmask(&mut self, reg: &mut StringsToBitmask, key: &str) -> (r: Result<
        (),
        SelectError,
    >)
        requires
            wf(old(reg)@),
        ensures
            wf(final(reg)@),
            ins_ok(old(reg)@, key@) ==> r == Ok::<(), SelectError>(()) && final(reg)@ == ins_reg(
                old(reg)@,
                key@,
            ) && final(self)@ == (BuilderView {
                bitmask: old(self)@.bitmask | spec_insert_word(old(reg)@, key@),
                ..old(self)@
            }),
            !ins_ok(old(reg)@, key@) ==> r == Err::<(), SelectError>(
                SelectError::ConfigurationExhausted,
            ) && *final(reg) == *old(reg) && *final(self) == *old(self),
    {
        match reg.insert(key) {
            Ok(w) => {
                self.bitmask = self.bitmask | w;
                proof {
                    assert(final(self)@ =~= (BuilderView {
                        bitmask: old(self)@.bitmask | spec_insert_word(old(reg)@, key@),
                        ..old(self)@
                    }));
                }
                Ok(())
            },
            Err(e) => Err(e),
        }
    }

    /// Feeds one segment to the automaton: a pending combining segment
    /// joins it, a combining segment is held back, any other segment is
    /// inserted directly.
    pub fn update_one(&mut self, reg: &mut StringsToBitmask, key: &str) -> (r: Result<
        (),
        SelectError,
    >)
        requires
            wf(old(reg)@),
        ensures
            wf(final(reg)@),
            spec_update_one_ok(old(reg)@, old(self)@, key@) ==> r == Ok::<(), SelectError>(())
                && final(reg)@ == spec_update_one(old(reg)@, old(self)@, key@).0 && final(self)@
                == spec_update_one(old(reg)@, old(self)@, key@).1,
            !spec_update_one_ok(old(reg)@, old(self)@, key@) ==> r == Err::<(), SelectError>(
                SelectError::ConfigurationExhausted,
            ),
    {
        let c = self.contained.take();
        match c {
            Some(t) => {
                let joined = crate::text::join_dash(t, key);
                proof {
                    assert(joined@ == spec_joined(old(self)@.contained->0, key@));
                }
                self.update_bitmask(reg, joined.as_str())
            },
            None => {
                if reg.is_combining(key) {
                    self.contained = Some(key.to_owned());
                    proof {
                        assert(final(self)@ =~= spec_update_one(old(reg)@, old(self)@, key@).1);
                    }
                    Ok(())
                } else {
                    self.update_bitmask(reg, key)
                }
            },
        }
    }

    /// Feeds each segment of `keys` to the automaton in order.
    #[verifier::loop_isolation(false)]
    pub fn update(&mut self, reg: &mut StringsToBitmask, keys: &Vec<String>) -> (r: Result<
        (),
        SelectError,
    >)
        requires
            wf(old(reg)@),
        ensures
            wf(final(reg)@),
            spec_update_seq_ok(old(reg)@, old(self)@, seq_views(keys@), keys@.len() as int) ==> r
                == Ok::<(), SelectError>(()) && final(reg)@ == spec_update_seq(
                old(reg)@,
                old(self)@,
                seq_views(keys@),
                keys@.len() as int,
            ).0 && final(self)@ == spec_update_seq(
                old(reg)@,
                old(self)@,
                seq_views(keys@),
                keys@.len() as int,
            ).1,
            !spec_update_seq_ok(old(reg)@, old(self)@, seq_views(keys@), keys@.len() as int) ==> r
                == Err::<(), SelectError>(SelectError::ConfigurationExhausted),
    {
        let ghost r0 = old(reg)@;
        let ghost b0 = old(self)@;
        let ghost toks = seq_views(keys@);
        let n = keys.len();
        let mut i: usize = 0;
        while i < n
            invariant
                0 <= i <= n,
                wf(reg@),
                spec_update_seq_ok(r0, b0, toks, i as int),
                reg@ == spec_update_seq(r0, b0, toks, i as int).0,
                self@ == spec_update_seq(r0, b0, toks, i as int).1,
            decreases n - i,
        {
            match self.update_one(reg, keys[i].as_str()) {
                Ok(_) => (),
                Err(e) => {
                    proof {
                        lemma_update_seq_not_ok(r0, b0, toks, i + 1, n as int);
                    }
                    return Err(e);
                },
            }
            i = i + 1;
        }
        Ok(())
    }

    /// Ends the run: a still-pending combining segment is flushed alone,
    /// and the gathered bitmask is returned.
    pub fn finalize(self, reg: &mut StringsToBitmask) -> (r: Result<u128, SelectError>)
        requires
            wf(old(reg)@),
        ensures
            wf(final(reg)@),
            spec_finalize_ok(old(reg)@, self@) ==> r == Ok::<u128, SelectError>(
                spec_finalize(old(reg)@, self@).1,
            ) && final(reg)@ == spec_finalize(old(reg)@, self@).0,
            !spec_finalize_ok(old(reg)@, self@) ==> r == Err::<u128, SelectError>(
                SelectError::ConfigurationExhausted,
            ),
    {
        match self.contained {
            Some(t) => {
                match reg.insert(t.as_str()) {
                    Ok(w) => Ok(self.bitmask | w),
                    Err(e) => Err(e),
                }
            },
            None => Ok(self.bitmask),
        }
    }

    /// The bitmask gathered by this run; ends the run as `finalize` does.
    pub fn inner(self, reg: &mut StringsToBitmask) -> (r: Result<u128, SelectError>)
        requires
            wf(old(reg)@),
        ensures
            wf(final(reg)@),
            spec_finalize_ok(old(reg)@, self@) ==> r == Ok::<u128, SelectError>(
                spec_finalize(old(reg)@, self@).1,
            ) && final(reg)@ == spec_finalize(old(reg)@, self@).0,
            !spec_finalize_ok(old(reg)@, self@) ==> r == Err::<u128, SelectError>(
                SelectError::ConfigurationExhausted,
            ),
    {
        self.finalize(reg)
    }
}

impl StringsToBitmask {
    /// Encodes a whole segment sequence into one bitmask: each segment is
    /// fed through the combining automaton and the emitted segments'
    /// words are OR-ed together.
    pub fn bitmask_from(&mut self, strings: &Vec<String>) -> (r: Result<u128, SelectError>)
        requires
            wf(old(self)@),
        ensures
            wf(final(self)@),
            spec_encode_seq_ok(old(self)@, seq_views(strings@)) ==> r == Ok::<u128, SelectError>(
                spec_encode_seq(old(self)@, seq_views(strings@)).1,
            ) && final(self)@ == spec_encode_seq(old(self)@, seq_views(strings@)).0,
            !spec_encode_seq_ok(old(self)@, seq_views(strings@)) ==> r == Err::<u128, SelectError>(
                SelectError::ConfigurationExhausted,
            ),
    {
        let mut builder = StringsToBitmaskBuilder::new();
        match builder.update(self, strings) {
            Ok(_) => (),
            Err(e) => {
                return Err(e);
            },
        }
        builder.inner(self)
    }
}


/// The alias list of `key` is either empty or the list of some table
/// entry whose key is `key`.
proof fn lemma_aliases_of_in_entries(entries: Seq<(Seq<char>, Seq<Seq<char>>)>, key: Seq<char>)
    ensures
        aliases_of(entries, key).len() > 0 ==> exists|i: int|
            0 <= i < entries.len() && (#[trigger] entries[i]).0 == key && entries[i].1
                == aliases_of(entries, key),
    decreases entries.len(),
{
    if entries.len() == 0 {
    } else if entries[0].0 == key {
        assert(entries[0].0 == key && entries[0].1 == aliases_of(entries, key));
    } else {
        lemma_aliases_of_in_entries(entries.skip(1), key);
        if aliases_of(entries, key).len() > 0 {
            let i = choose|i: int|
                0 <= i < entries.skip(1).len() && (#[trigger] entries.skip(1)[i]).0 == key
                    && entries.skip(1)[i].1 == aliases_of(entries.skip(1), key);
            assert(entries[i + 1] == entries.skip(1)[i]);
        }
    }
}

/// In a well-formed registry every declared alias is registered.
pub proof fn lemma_aliases_registered(r: RegView, key: Seq<char>)
    requires
        wf(r),
    ensures
        forall|k: int| 0 <= k < aliases_of(r.aliases, key).len() ==> registered(
            r,
            #[trigger] aliases_of(r.aliases, key)[k],
        ),
{
    lemma_aliases_of_in_entries(r.aliases, key);
    if aliases_of(r.aliases, key).len() > 0 {
        let i = choose|i: int|
            0 <= i < r.aliases.len() && (#[trigger] r.aliases[i]).0 == key && r.aliases[i].1
                == aliases_of(r.aliases, key);
        assert forall|k: int| 0 <= k < aliases_of(r.aliases, key).len() implies registered(
            r,
            #[trigger] aliases_of(r.aliases, key)[k],
        ) by {
            assert(registered(r, r.aliases[i].1[k]));
        }
    }
}

/// Two distinct registered segments hold distinct bits.
pub proof fn lemma_bits_distinct(r: RegView, a: Seq<char>, b: Seq<char>)
    requires
        wf(r),
        registered(r, a),
        registered(r, b),
        a != b,
    ensures
        word_bit(r, a) & word_bit(r, b) == 0,
{
    lemma_contains_first_index(r.names, a);
    lemma_contains_first_index(r.names, b);
    let i = first_index(r.names, a);
    let j = first_index(r.names, b);
    assert(i != j);
    let iu = i as u128;
    let ju = j as u128;
    assert(iu != ju && iu < 128 && ju < 128 ==> (1u128 << iu) & (1u128 << ju) == 0)
        by (bit_vector);
}

/// The bit of a registered segment is set in its own word.
pub proof fn lemma_word_bit_nonzero(r: RegView, a: Seq<char>)
    requires
        wf(r),
        registered(r, a),
    ensures
        word_bit(r, a) != 0,
        word_bit(r, a) & word_bit(r, a) == word_bit(r, a),
{
    lemma_contains_first_index(r.names, a);
    let iu = first_index(r.names, a) as u128;
    assert(iu < 128 ==> (1u128 << iu) != 0) by (bit_vector);
    assert((1u128 << iu) & (1u128 << iu) == (1u128 << iu)) by (bit_vector);
}

/// A word OR-ed into a fold of words is set in the fold.
proof fn lemma_or_bits_member(r: RegView, l: Seq<Seq<char>>, n: int, k: int)
    requires
        0 <= k < n,
        word_bit(r, l[k]) != 0,
        word_bit(r, l[k]) & word_bit(r, l[k]) == word_bit(r, l[k]),
    ensures
        or_bits(r, l, n) & word_bit(r, l[k]) != 0,
    decreases n,
{
    let w = word_bit(r, l[k]);
    if k == n - 1 {
        let a = or_bits(r, l, n - 1);
        assert(w & w == w && w != 0 ==> (a | w) & w != 0) by (bit_vector);
    } else {
        lemma_or_bits_member(r, l, n - 1, k);
        let a = or_bits(r, l, n - 1);
        let b = word_bit(r, l[n - 1]);
        assert(a & w != 0 ==> (a | b) & w != 0) by (bit_vector);
    }
}

/// A fold of words each disjoint from `w` is disjoint from `w`.
proof fn lemma_or_bits_avoid(r: RegView, l: Seq<Seq<char>>, n: int, w: u128)
    requires
        forall|k: int| 0 <= k < n ==> word_bit(r, #[trigger] l[k]) & w == 0,
    ensures
        or_bits(r, l, n) & w == 0,
    decreases n,
{
    if n <= 0 {
        assert(0u128 & w == 0) by (bit_vector);
    } else {
        lemma_or_bits_avoid(r, l, n - 1, w);
        let a = or_bits(r, l, n - 1);
        let b = word_bit(r, l[n - 1]);
        assert(a & w == 0 && b & w == 0 ==> (a | b) & w == 0) by (bit_vector);
    }
}

/// Inserting a segment twice is the same as inserting it once: the second
/// insertion finds the registry unchanged and returns the same word.
pub proof fn lemma_insert_idempotent(r: RegView, s: Seq<char>)
    ensures
        ins_reg(ins_reg(r, s), s) == ins_reg(r, s),
        ins_ok(ins_reg(r, s), s),
        spec_insert_word(ins_reg(r, s), s) == spec_insert_word(r, s),
{
    let r1 = ins_reg(r, s);
    if !spec_ignores(r.ignore, s) {
        lemma_reg_add_facts(r, s);
        assert(registered(r1, s));
        assert(reg_add(r1, s) == r1);
    }
    assert(r1.aliases == r.aliases);
    assert(ins_reg(r1, s) == r1);
}

/// The declared alias relation is one-directional: the key's word carries
/// the alias's bit, and the alias's word never carries the key's bit.
pub proof fn lemma_alias_asymmetry(r: RegView, key: Seq<char>, al: Seq<char>)
    requires
        wf(r),
        registered(r, key),
        registered(r, al),
        key != al,
        aliases_of(r.aliases, key).contains(al),
        !aliases_of(r.aliases, al).contains(key),
    ensures
        spec_insert_word(r, key) & word_bit(r, al) != 0,
        spec_insert_word(r, al) & word_bit(r, key) == 0,
{
    assert(ins_reg(r, key) == r);
    assert(ins_reg(r, al) == r);
    let lk = aliases_of(r.aliases, key);
    let la = aliases_of(r.aliases, al);
    let wal = word_bit(r, al);
    let wkey = word_bit(r, key);

    let k = choose|k: int| 0 <= k < lk.len() && lk[k] == al;
    lemma_word_bit_nonzero(r, al);
    lemma_or_bits_member(r, lk, lk.len() as int, k);
    let own = ins_word(r, key);
    let fold = or_bits(r, lk, lk.len() as int);
    assert(fold & wal != 0 ==> (own | fold) & wal != 0) by (bit_vector);

    lemma_aliases_registered(r, al);
    assert forall|w: int| 0 <= w < la.len() implies word_bit(r, #[trigger] la[w]) & wkey == 0 by {
        assert(la[w] != key);
        lemma_bits_distinct(r, la[w], key);
    }
    lemma_or_bits_avoid(r, la, la.len() as int, wkey);
    let own2 = ins_word(r, al);
    let fold2 = or_bits(r, la, la.len() as int);
    lemma_bits_distinct(r, al, key);
    assert(own2 == 0 || own2 == wal);
    assert(0u128 & wkey == 0) by (bit_vector);
    assert(own2 & wkey == 0 && fold2 & wkey == 0 ==> (own2 | fold2) & wkey == 0) by (bit_vector);
}

} // verus!
