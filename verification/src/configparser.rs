//! A small key/value configuration format: one item per line, where a line
//! with `=` binds the trimmed key before the first `=` to the trimmed value
//! after it, and any other line is a bare flag.

use vstd::prelude::*;

use crate::strutil::{find_char, find_char_str, lemma_find_char, lines_of, runs, space_sep,
    split_lines, split_whitespace_str, str_eq, trim_spec, trim_str};

verus! {

/// What can go wrong while reading a configuration.
#[derive(Clone, Copy, Debug, PartialEq, Eq, Structural)]
pub enum ConfigError {
    /// One key is bound on two different lines.
    DuplicateKey,
    /// A required value is empty.
    MissingValue,
    /// A line handed to the binding extractor holds no `=` separator.
    MissingSeparator,
}

/// Whether the line binds a key, i.e. contains `=`.
pub open spec fn has_eq(l: Seq<char>) -> bool {
    find_char(l, '=') is Some
}

/// The key a binding line binds: everything before the first `=`, trimmed.
pub open spec fn key_of(l: Seq<char>) -> Seq<char> {
    trim_spec(l.take(find_char(l, '=')->Some_0))
}

/// The value a binding line binds: everything after the first `=`, trimmed.
pub open spec fn value_of(l: Seq<char>) -> Seq<char> {
    trim_spec(l.skip(find_char(l, '=')->Some_0 + 1))
}

/// The flag a bare line sets: the whole line, trimmed.
pub open spec fn flag_of(l: Seq<char>) -> Seq<char> {
    trim_spec(l)
}

/// The keys of the binding lines, in order of appearance.
pub open spec fn kv_keys(ls: Seq<Seq<char>>) -> Seq<Seq<char>>
    decreases ls.len(),
{
    if ls.len() == 0 {
        Seq::empty()
    } else {
        let prev = kv_keys(ls.drop_last());
        if has_eq(ls.last()) {
            prev.push(key_of(ls.last()))
        } else {
            prev
        }
    }
}

/// The values of the binding lines, in order of appearance.
pub open spec fn kv_values(ls: Seq<Seq<char>>) -> Seq<Seq<char>>
    decreases ls.len(),
{
    if ls.len() == 0 {
        Seq::empty()
    } else {
        let prev = kv_values(ls.drop_last());
        if has_eq(ls.last()) {
            prev.push(value_of(ls.last()))
        } else {
            prev
        }
    }
}

/// The flags of the bare lines, in order of first appearance, each kept
/// once.
pub open spec fn flags_of(ls: Seq<Seq<char>>) -> Seq<Seq<char>>
    decreases ls.len(),
{
    if ls.len() == 0 {
        Seq::empty()
    } else {
        let prev = flags_of(ls.drop_last());
        if !has_eq(ls.last()) && !prev.contains(flag_of(ls.last())) {
            prev.push(flag_of(ls.last()))
        } else {
            prev
        }
    }
}

/// Whether some key appears twice.
pub open spec fn has_dup(keys: Seq<Seq<char>>) -> bool {
    exists|i: int, j: int| 0 <= i < j < keys.len() && keys[i] == keys[j]
}

/// The first binding for `key`, if any.
pub open spec fn lookup_value(
    keys: Seq<Seq<char>>,
    values: Seq<Seq<char>>,
    key: Seq<char>,
) -> Option<Seq<char>>
    decreases keys.len(),
{
    if keys.len() == 0 {
        None
    } else if keys[0] == key {
        Some(values[0])
    } else {
        lookup_value(keys.skip(1), values.skip(1), key)
    }
}

/// What [`lookup_value`] returns: the value of the first matching key, or
/// nothing when no key matches.
pub proof fn lemma_lookup_value(keys: Seq<Seq<char>>, values: Seq<Seq<char>>, key: Seq<char>)
    requires
        keys.len() <= values.len(),
    ensures
        match lookup_value(keys, values, key) {
            Some(v) => exists|i: int|
                0 <= i < keys.len() && keys[i] == key && values[i] == v && (forall|j: int|
                    0 <= j < i ==> keys[j] != key),
            None => forall|i: int| 0 <= i < keys.len() ==> keys[i] != key,
        },
    decreases keys.len(),
{
    if keys.len() > 0 && keys[0] != key {
        lemma_lookup_value(keys.skip(1), values.skip(1), key);
        assert(forall|i: int| 1 <= i < keys.len() ==> keys[i] == keys.skip(1)[i - 1]);
        assert(forall|i: int| 1 <= i < values.len() ==> values[i] == values.skip(1)[i - 1]);
        match lookup_value(keys.skip(1), values.skip(1), key) {
            Some(v) => {
                let i = choose|i: int|
                    0 <= i < keys.skip(1).len() && keys.skip(1)[i] == key && values.skip(1)[i]
                        == v && (forall|j: int| 0 <= j < i ==> keys.skip(1)[j] != key);
                assert(keys[i + 1] == key && values[i + 1] == v);
                assert(forall|j: int| 0 <= j < i + 1 ==> keys[j] != key);
            },
            None => {},
        }
    }
}

/// [`kv_keys`] of a prefix of the lines is a prefix of [`kv_keys`] of all
/// of them, and likewise for the values.
proof fn lemma_kv_prefix(ls: Seq<Seq<char>>, m: int)
    requires
        0 <= m <= ls.len(),
    ensures
        kv_keys(ls.take(m)).is_prefix_of(kv_keys(ls)),
        kv_values(ls.take(m)).is_prefix_of(kv_values(ls)),
    decreases ls.len() - m,
{
    if m == ls.len() {
        assert(ls.take(m) =~= ls);
    } else {
        lemma_kv_prefix(ls, m + 1);
        assert(ls.take(m + 1).drop_last() =~= ls.take(m));
        assert(ls.take(m + 1).last() == ls[m]);
    }
}

/// From one configuration line, records the flag it sets; a flag that is
/// already recorded is not recorded twice.
pub fn extract_flag(line: &str, flags: &mut Vec<String>)
    ensures
        old(flags).deep_view().contains(flag_of(line@)) ==> final(flags)@ == old(flags)@,
        !old(flags).deep_view().contains(flag_of(line@)) ==> final(flags).deep_view() == old(
            flags,
        ).deep_view().push(flag_of(line@)),
{
    let flag = trim_str(line);
    let mut w: usize = 0;
    let mut present: bool = false;
    while w < flags.len()
        invariant
            0 <= w <= flags@.len(),
            flags@ == old(flags)@,
            flag@ == flag_of(line@),
            present <==> (exists|k: int| 0 <= k < w && flags.deep_view()[k] == flag@),
        decreases flags@.len() - w,
    {
        if str_eq(flags[w].as_str(), flag.as_str()) {
            present = true;
        }
        proof {
            assert(flags.deep_view()[w as int] == flags@[w as int]@);
        }
        w = w + 1;
    }
    if !present {
        let ghost dv = flags.deep_view();
        flags.push(flag);
        proof {
            assert(flags.deep_view() =~= dv.push(flag_of(line@)));
        }
    }
}

/// From one configuration line, records the binding of the trimmed key
/// before the first `=` to the trimmed value after it; a line without `=`
/// and a key that is already bound are rejected.
pub fn extract_key_value_pair(line: &str, keys: &mut Vec<String>, values: &mut Vec<String>) -> (r:
    Result<(), ConfigError>)
    ensures
        !has_eq(line@) ==> r is Err && r->Err_0 == ConfigError::MissingSeparator && final(keys)@
            == old(keys)@ && final(values)@ == old(values)@,
        has_eq(line@) && old(keys).deep_view().contains(key_of(line@)) ==> r is Err && r->Err_0
            == ConfigError::DuplicateKey && final(keys)@ == old(keys)@ && final(values)@ == old(
            values,
        )@,
        has_eq(line@) && !old(keys).deep_view().contains(key_of(line@)) ==> r is Ok
            && final(keys).deep_view() == old(keys).deep_view().push(key_of(line@))
            && final(values).deep_view() == old(values).deep_view().push(value_of(line@)),
{
    let n: usize = line.unicode_len();
    let idx = match find_char_str(line, '=') {
        Some(idx) => idx,
        None => {
            return Err(ConfigError::MissingSeparator);
        },
    };
    proof {
        assert(find_char(line@, '=') == Some(idx as int));
        assert(has_eq(line@));
        lemma_find_char(line@, '=');
    }
    let key = trim_str(line.substring_char(0, idx));
    let value = trim_str(line.substring_char(idx + 1, n));
    proof {
        assert(line@.subrange(0, idx as int) =~= line@.take(idx as int));
        assert(line@.subrange(idx + 1, n as int) =~= line@.skip(idx + 1));
        assert(key@ == key_of(line@));
        assert(value@ == value_of(line@));
    }
    let mut w: usize = 0;
    while w < keys.len()
        invariant
            0 <= w <= keys@.len(),
            keys@ == old(keys)@,
            values@ == old(values)@,
            has_eq(line@),
            key@ == key_of(line@),
            forall|k: int| 0 <= k < w ==> keys.deep_view()[k] != key@,
        decreases keys@.len() - w,
    {
        if str_eq(keys[w].as_str(), key.as_str()) {
            proof {
                assert(keys.deep_view()[w as int] == keys@[w as int]@);
                assert(keys.deep_view().contains(key_of(line@)));
            }
            return Err(ConfigError::DuplicateKey);
        }
        proof {
            assert(keys.deep_view()[w as int] == keys@[w as int]@);
        }
        w = w + 1;
    }
    let ghost kdv = keys.deep_view();
    let ghost vdv = values.deep_view();
    keys.push(key);
    values.push(value);
    proof {
        assert(keys.deep_view() =~= kdv.push(key_of(line@)));
        assert(values.deep_view() =~= vdv.push(value_of(line@)));
    }
    Ok(())
}

/// The parsed configuration: the flags that were set and the key/value
/// bindings, with every key bound once.
#[derive(Debug)]
pub struct ConfigParser {
    flags: Vec<String>,
    keys: Vec<String>,
    values: Vec<String>,
}

impl ConfigParser {
    /// The flags, in order of first appearance.
    pub closed spec fn spec_flags(&self) -> Seq<Seq<char>> {
        self.flags.deep_view()
    }

    /// The bound keys, in order of appearance.
    pub closed spec fn spec_keys(&self) -> Seq<Seq<char>> {
        self.keys.deep_view()
    }

    /// The bound values, in the order of their keys.
    pub closed spec fn spec_values(&self) -> Seq<Seq<char>> {
        self.values.deep_view()
    }

    /// Every key has a value and no key is bound twice.
    pub open spec fn wf(&self) -> bool {
        self.spec_keys().len() == self.spec_values().len() && !has_dup(self.spec_keys())
    }

    /// Parses the text of a configuration file.
    #[verifier::loop_isolation(false)]
    pub fn parse(content: &str) -> (r: Result<ConfigParser, ConfigError>)
        ensures
            ({
                let ls = lines_of(content@);
                if has_dup(kv_keys(ls)) {
                    r == Err::<ConfigParser, ConfigError>(ConfigError::DuplicateKey)
                } else {
                    match r {
                        Ok(p) => p.wf() && p.spec_keys() == kv_keys(ls) && p.spec_values()
                            == kv_values(ls) && p.spec_flags() == flags_of(ls),
                        Err(_) => false,
                    }
                }
            }),
    {
        let lines = split_lines(content);
        let ghost ls = lines.deep_view();
        let mut flags: Vec<String> = Vec::new();
        let mut keys: Vec<String> = Vec::new();
        let mut values: Vec<String> = Vec::new();
        let mut i: usize = 0;
        proof {
            assert(keys.deep_view() =~= kv_keys(ls.take(0)));
            assert(values.deep_view() =~= kv_values(ls.take(0)));
            assert(flags.deep_view() =~= flags_of(ls.take(0)));
        }
        while i < lines.len()
            invariant
                0 <= i <= lines.len(),
                ls == lines.deep_view(),
                ls == lines_of(content@),
                keys@.len() == values@.len(),
                keys.deep_view() =~= kv_keys(ls.take(i as int)),
                values.deep_view() =~= kv_values(ls.take(i as int)),
                flags.deep_view() =~= flags_of(ls.take(i as int)),
                !has_dup(keys.deep_view()),
            decreases lines.len() - i,
        {
            let ghost tk = ls.take(i as int);
            let ghost tk1 = ls.take(i + 1);
            proof {
                assert(tk1.drop_last() =~= tk);
                assert(tk1.last() == ls[i as int]);
                assert(ls[i as int] == lines@[i as int]@);
            }
            let line = &lines[i];
            match find_char_str(line.as_str(), '=') {
                Some(_) => {
                    let ghost kdv = keys.deep_view();
                    match extract_key_value_pair(line.as_str(), &mut keys, &mut values) {
                        Ok(()) => {
                            proof {
                                assert(keys.deep_view() =~= kv_keys(tk1));
                                assert(values.deep_view() =~= kv_values(tk1));
                                assert forall|a: int, b: int|
                                    0 <= a < b < keys.deep_view().len() implies keys.deep_view()[a]
                                    != keys.deep_view()[b] by {
                                    if b < kdv.len() {
                                    } else {
                                        assert(!kdv.contains(key_of(ls[i as int])));
                                        assert(keys.deep_view()[a] == kdv[a]);
                                    }
                                }
                                assert(!has_dup(keys.deep_view()));
                                assert(flags.deep_view() =~= flags_of(tk1));
                            }
                        },
                        Err(e) => {
                            proof {
                                assert(kdv.contains(key_of(ls[i as int])));
                                let w = choose|w: int|
                                    0 <= w < kdv.len() && kdv[w] == key_of(ls[i as int]);
                                assert(kv_keys(tk1) =~= kdv.push(key_of(ls[i as int])));
                                let last = kdv.len() as int;
                                assert(kv_keys(tk1)[w] == key_of(ls[i as int]));
                                assert(kv_keys(tk1)[last] == key_of(ls[i as int]));
                                assert(has_dup(kv_keys(tk1)));
                                lemma_kv_prefix(ls, i + 1);
                                assert(has_dup(kv_keys(ls)));
                            }
                            return Err(e);
                        },
                    }
                },
                None => {
                    let ghost fdv = flags.deep_view();
                    extract_flag(line.as_str(), &mut flags);
                    proof {
                        if fdv.contains(flag_of(ls[i as int])) {
                            assert(flags.deep_view() =~= flags_of(tk1));
                        } else {
                            assert(flags.deep_view() =~= flags_of(tk1));
                        }
                        assert(keys.deep_view() =~= kv_keys(tk1));
                        assert(values.deep_view() =~= kv_values(tk1));
                    }
                },
            }
            i = i + 1;
        }
        proof {
            assert(ls.take(ls.len() as int) =~= ls);
        }
        Ok(ConfigParser { flags, keys, values })
    }

    /// Whether the configuration sets this flag.
    pub fn has_flag(&self, flag: &str) -> (r: bool)
        ensures
            r == self.spec_flags().contains(flag@),
    {
        let mut i: usize = 0;
        while i < self.flags.len()
            invariant
                0 <= i <= self.flags@.len(),
                forall|k: int| 0 <= k < i ==> self.spec_flags()[k] != flag@,
            decreases self.flags@.len() - i,
        {
            if str_eq(self.flags[i].as_str(), flag) {
                proof {
                    assert(self.spec_flags()[i as int] == self.flags@[i as int]@);
                }
                return true;
            }
            proof {
                assert(self.spec_flags()[i as int] == self.flags@[i as int]@);
            }
            i = i + 1;
        }
        false
    }

    /// Overwrites `field` with the value bound to `key`, if one is bound;
    /// an unbound key leaves the field as it was.
    pub fn get_value_into(&self, key: &str, field: &mut String)
        requires
            self.wf(),
        ensures
            match lookup_value(self.spec_keys(), self.spec_values(), key@) {
                Some(v) => final(field)@ == v,
                None => final(field)@ == old(field)@,
            },
    {
        proof {
            lemma_lookup_value(self.spec_keys(), self.spec_values(), key@);
        }
        let mut i: usize = 0;
        while i < self.keys.len()
            invariant
                0 <= i <= self.keys@.len(),
                self.keys@.len() == self.values@.len(),
                forall|k: int| 0 <= k < i ==> self.spec_keys()[k] != key@,
                *field == *old(field),
            decreases self.keys@.len() - i,
        {
            proof {
                assert(self.spec_keys()[i as int] == self.keys@[i as int]@);
                assert(self.spec_values()[i as int] == self.values@[i as int]@);
            }
            if str_eq(self.keys[i].as_str(), key) {
                *field = self.values[i].clone();
                proof {
                    lemma_lookup_value(self.spec_keys(), self.spec_values(), key@);
                }
                return ;
            }
            i = i + 1;
        }
        proof {
            lemma_lookup_value(self.spec_keys(), self.spec_values(), key@);
        }
    }

    /// Overwrites `field` with the whitespace-separated tokens of the value
    /// bound to `key`, if one is bound; an unbound key leaves the field as
    /// it was.
    pub fn get_values_into(&self, key: &str, field: &mut Vec<String>)
        requires
            self.wf(),
        ensures
            match lookup_value(self.spec_keys(), self.spec_values(), key@) {
                Some(v) => final(field).deep_view() == runs(v, space_sep()),
                None => final(field)@ == old(field)@,
            },
    {
        proof {
            lemma_lookup_value(self.spec_keys(), self.spec_values(), key@);
        }
        let mut i: usize = 0;
        while i < self.keys.len()
            invariant
                0 <= i <= self.keys@.len(),
                self.keys@.len() == self.values@.len(),
                forall|k: int| 0 <= k < i ==> self.spec_keys()[k] != key@,
                *field == *old(field),
            decreases self.keys@.len() - i,
        {
            proof {
                assert(self.spec_keys()[i as int] == self.keys@[i as int]@);
                assert(self.spec_values()[i as int] == self.values@[i as int]@);
            }
            if str_eq(self.keys[i].as_str(), key) {
                *field = split_whitespace_str(self.values[i].as_str());
                proof {
                    lemma_lookup_value(self.spec_keys(), self.spec_values(), key@);
                }
                return ;
            }
            i = i + 1;
        }
        proof {
            lemma_lookup_value(self.spec_keys(), self.spec_values(), key@);
        }
    }
}

} // verus!
