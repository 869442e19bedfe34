//! The form: a runtime kind-checked set of named parameters, with the
//! merge protocol that validates every update.

use vstd::prelude::*;

use crate::args::{arg_views, args_entry_ok, args_fold, is_first_arg_err};
use crate::assoc::{assoc_map_of, distinct_keys, key_index, lemma_assoc_contains,
    lemma_assoc_index, lemma_assoc_len, lemma_assoc_push, lemma_assoc_update, lemma_key_index};
use crate::error::{ConfigError, ErrorModel};
use crate::maps::{StringMap, ValueMap};
use crate::text;
use crate::value::{Value, ValueModel};

verus! {

/// The ghost model of a [`Parameter`].
#[verifier::ext_equal]
pub ghost struct ParamModel {
    pub value: ValueModel,
    pub about: Seq<char>,
    pub frozen: bool,
}

/// A declared parameter: its current value, a description for reporting,
/// and whether it is frozen against further change.
#[derive(Debug)]
pub struct Parameter {
    pub value: Value,
    pub about: String,
    pub frozen: bool,
}

impl View for Parameter {
    type V = ParamModel;

    open spec fn view(&self) -> ParamModel {
        ParamModel { value: self.value@, about: self.about@, frozen: self.frozen }
    }
}

impl Clone for Parameter {
    fn clone(&self) -> (res: Self)
        ensures
            res == *self,
    {
        Parameter { value: self.value.clone(), about: self.about.clone(), frozen: self.frozen }
    }
}

/// Whether one update passes the merge checks against the parameter map
/// `m`: the key is declared, the kinds agree, and a frozen parameter only
/// receives the value it already holds.
pub open spec fn update_ok(m: Map<Seq<char>, ParamModel>, k: Seq<char>, v: ValueModel) -> bool {
    &&& m.dom().contains(k)
    &&& v.same_kind(m[k].value)
    &&& (m[k].frozen ==> v == m[k].value)
}

/// The reason an update is rejected; meaningful only when it is.
pub open spec fn update_why(m: Map<Seq<char>, ParamModel>, k: Seq<char>, v: ValueModel) -> Seq<
    char,
> {
    if !m.dom().contains(k) {
        "is not a valid key"@
    } else if !v.same_kind(m[k].value) {
        "has the wrong type"@
    } else {
        "cannot be modified"@
    }
}

/// The parameter map after absorbing the updates `u`: values from `u`
/// where it speaks, everything else untouched.
pub open spec fn spec_merged(
    m: Map<Seq<char>, ParamModel>,
    u: Map<Seq<char>, ValueModel>,
) -> Map<Seq<char>, ParamModel> {
    Map::new(
        |k: Seq<char>| m.dom().contains(k),
        |k: Seq<char>|
            if u.dom().contains(k) {
                ParamModel { value: u[k], about: m[k].about, frozen: m[k].frozen }
            } else {
                m[k]
            },
    )
}

/// As [`spec_merged`], and afterwards every key both updated and named in
/// `fz` is frozen.
pub open spec fn spec_merged_freezing(
    m: Map<Seq<char>, ParamModel>,
    u: Map<Seq<char>, ValueModel>,
    fz: Seq<Seq<char>>,
) -> Map<Seq<char>, ParamModel> {
    Map::new(
        |k: Seq<char>| m.dom().contains(k),
        |k: Seq<char>|
            if u.dom().contains(k) {
                ParamModel {
                    value: u[k],
                    about: m[k].about,
                    frozen: m[k].frozen || fz.contains(k),
                }
            } else {
                m[k]
            },
    )
}

/// Every update in the sequence passes the merge checks against `m`.
pub open spec fn all_updates_ok(
    m: Map<Seq<char>, ParamModel>,
    u: Seq<(Seq<char>, ValueModel)>,
) -> bool {
    forall|i: int| 0 <= i < u.len() ==> update_ok(m, (#[trigger] u[i]).0, u[i].1)
}

/// The error reports the first update in `u` that fails against `m`.
pub open spec fn is_first_update_err(
    m: Map<Seq<char>, ParamModel>,
    u: Seq<(Seq<char>, ValueModel)>,
    e: ErrorModel,
) -> bool {
    exists|i: int|
        {
            &&& 0 <= i < u.len()
            &&& !update_ok(m, (#[trigger] u[i]).0, u[i].1)
            &&& (forall|j: int| 0 <= j < i ==> update_ok(m, (#[trigger] u[j]).0, u[j].1))
            &&& e.key == u[i].0
            &&& e.why == update_why(m, u[i].0, u[i].1)
        }
}

/// Whether a raw string entry parses against `m`: its key is declared,
/// and its text reads at the declared kind.
pub open spec fn parse_entry_ok(
    m: Map<Seq<char>, ParamModel>,
    k: Seq<char>,
    raw: Seq<char>,
) -> bool {
    m.dom().contains(k) && crate::value::spec_parse_as(m[k].value, raw) is Some
}

/// The reason a raw string entry is rejected; meaningful only when it is.
pub open spec fn parse_entry_why(
    m: Map<Seq<char>, ParamModel>,
    k: Seq<char>,
    raw: Seq<char>,
) -> Seq<char> {
    if !m.dom().contains(k) {
        "is not a valid key"@
    } else {
        match m[k].value {
            ValueModel::B(_) => "is a badly formed bool"@,
            ValueModel::I(_) => "is a badly formed int"@,
            ValueModel::F(_) => "is a badly formed float"@,
            ValueModel::S(_) => "is a badly formed string"@,
        }
    }
}

/// The typed updates a raw-string map denotes, entry for entry;
/// meaningful where every entry parses.
pub open spec fn parsed_entries(
    m: Map<Seq<char>, ParamModel>,
    d: Seq<(Seq<char>, Seq<char>)>,
) -> Seq<(Seq<char>, ValueModel)> {
    d.map_values(
        |p: (Seq<char>, Seq<char>)| (p.0, crate::value::spec_parse_as(m[p.0].value, p.1)->0),
    )
}

/// Every raw entry of `d` parses against `m`.
pub open spec fn all_parses_ok(
    m: Map<Seq<char>, ParamModel>,
    d: Seq<(Seq<char>, Seq<char>)>,
) -> bool {
    forall|i: int| 0 <= i < d.len() ==> parse_entry_ok(m, (#[trigger] d[i]).0, d[i].1)
}

/// The error reports the first raw entry of `d` that does not parse.
pub open spec fn is_first_parse_err(
    m: Map<Seq<char>, ParamModel>,
    d: Seq<(Seq<char>, Seq<char>)>,
    e: ErrorModel,
) -> bool {
    exists|i: int|
        {
            &&& 0 <= i < d.len()
            &&& !parse_entry_ok(m, (#[trigger] d[i]).0, d[i].1)
            &&& (forall|j: int| 0 <= j < i ==> parse_entry_ok(m, (#[trigger] d[j]).0, d[j].1))
            &&& e.key == d[i].0
            &&& e.why == parse_entry_why(m, d[i].0, d[i].1)
        }
}

/// The values of a parameter map, with descriptions and frozen flags
/// stripped.
pub open spec fn spec_value_map(m: Map<Seq<char>, ParamModel>) -> Map<Seq<char>, ValueModel> {
    Map::new(|k: Seq<char>| m.dom().contains(k), |k: Seq<char>| m[k].value)
}

/// Strictly ascending in lexicographic order: sorted, with no repeats.
pub open spec fn keys_sorted(s: Seq<String>) -> bool {
    forall|i: int, j: int|
        0 <= i < j < s.len() ==> text::lex_le((#[trigger] s[i])@, (#[trigger] s[j])@) && s[i]@
            != s[j]@
}

/// Some element of `s` reads `k`.
pub open spec fn name_listed(s: Seq<String>, k: Seq<char>) -> bool {
    exists|q: int| 0 <= q < s.len() && (#[trigger] s[q])@ == k
}

/// Some entry among the first `n` of `s` has key `k`.
spec fn among_first(s: Seq<(Seq<char>, ParamModel)>, n: int, k: Seq<char>) -> bool {
    exists|i: int| 0 <= i < n && (#[trigger] s[i]).0 == k
}

/// Places `x` into a strictly sorted vector of names it is not yet in,
/// keeping the order strict.
fn insert_sorted(v: &mut Vec<String>, x: String)
    requires
        keys_sorted(old(v)@),
        forall|p: int| 0 <= p < old(v)@.len() ==> (#[trigger] old(v)@[p])@ != x@,
    ensures
        final(v)@.len() == old(v)@.len() + 1,
        keys_sorted(final(v)@),
        forall|p: int| 0 <= p < old(v)@.len() ==> name_listed(final(v)@, (#[trigger] old(v)@[p])@),
        name_listed(final(v)@, x@),
        forall|q: int|
            0 <= q < final(v)@.len() ==> (#[trigger] final(v)@[q])@ == x@ || name_listed(
                old(v)@,
                final(v)@[q]@,
            ),
{
    let n = v.len();
    let mut pos: usize = 0;
    while pos < n
        invariant
            pos <= n,
            n == v@.len(),
            v@ == old(v)@,
            keys_sorted(v@),
            forall|p: int| 0 <= p < n ==> (#[trigger] v@[p])@ != x@,
            forall|p: int| 0 <= p < pos ==> text::lex_le((#[trigger] v@[p])@, x@),
        ensures
            pos <= n,
            v@ == old(v)@,
            forall|p: int| 0 <= p < pos ==> text::lex_le((#[trigger] v@[p])@, x@),
            pos < n ==> text::lex_le(x@, v@[pos as int]@),
        decreases n - pos,
    {
        if !text::str_le(v[pos].as_str(), x.as_str()) {
            proof {
                text::lemma_lex_le_total(v@[pos as int]@, x@);
            }
            break ;
        }
        pos += 1;
    }
    let ghost before = v@;
    v.insert(pos, x);
    proof {
        let u = v@;
        assert(u == before.insert(pos as int, x));
        assert(u[pos as int] == x);
        assert(forall|p: int| 0 <= p < pos ==> #[trigger] u[p] == before[p]);
        assert(forall|p: int| pos < p < u.len() ==> #[trigger] u[p] == before[p - 1]);
        assert forall|i: int, j: int| 0 <= i < j < u.len() implies text::lex_le(
            (#[trigger] u[i])@,
            (#[trigger] u[j])@,
        ) && u[i]@ != u[j]@ by {
            if j < pos {
            } else if j == pos {
                assert(u[i] == before[i]);
                assert(text::lex_le(before[i]@, x@));
                assert(before[i]@ != x@);
            } else {
                assert(u[j] == before[j - 1]);
                if i < pos {
                    assert(u[i] == before[i]);
                    assert(text::lex_le(before[i]@, before[j - 1]@) && before[i]@ != before[j
                        - 1]@);
                } else if i == pos {
                    assert(pos < n);
                    assert(text::lex_le(x@, before[pos as int]@));
                    if j - 1 > pos {
                        assert(text::lex_le(before[pos as int]@, before[j - 1]@));
                        text::lemma_lex_le_transitive(x@, before[pos as int]@, before[j - 1]@);
                    }
                    assert(before[j - 1]@ != x@);
                } else {
                    assert(u[i] == before[i - 1]);
                }
            }
        }
        assert forall|p: int| 0 <= p < before.len() implies name_listed(
            u,
            (#[trigger] before[p])@,
        ) by {
            if p < pos {
                assert(u[p]@ == before[p]@);
            } else {
                assert(u[p + 1]@ == before[p]@);
            }
        }
        assert(name_listed(u, x@)) by {
            assert(u[pos as int]@ == x@);
        }
        assert forall|q: int| 0 <= q < u.len() implies (#[trigger] u[q])@ == x@ || name_listed(
            before,
            u[q]@,
        ) by {
            if q < pos {
                assert(before[q]@ == u[q]@);
            } else if q > pos {
                assert(before[q - 1]@ == u[q]@);
            }
        }
    }
}

/// A configuration container that is kind-checked at runtime. Parameters
/// are declared with [`Form::item`], after which their value can be
/// updated but their kind (boolean, integer, float, string) cannot
/// change. Updates are absorbed in the order their map lists them.
#[derive(Debug)]
pub struct Form {
    entries: Vec<(String, Parameter)>,
}

impl View for Form {
    type V = Map<Seq<char>, ParamModel>;

    closed spec fn view(&self) -> Map<Seq<char>, ParamModel> {
        assoc_map_of(self.entries_view())
    }
}

impl Form {
    spec fn entries_view(&self) -> Seq<(Seq<char>, ParamModel)> {
        self.entries@.map_values(|e: (String, Parameter)| (e.0@, e.1@))
    }

    /// No parameter name occurs twice.
    pub closed spec fn wf(&self) -> bool {
        distinct_keys(self.entries_view())
    }

    /// A blank form.
    pub fn new() -> (r: Form)
        ensures
            r.wf(),
            r@ == Map::<Seq<char>, ParamModel>::empty(),
            r@.dom() == Set::<Seq<char>>::empty(),
    {
        let r = Form { entries: Vec::new() };
        proof {
            assert(r.entries_view() =~= Seq::<(Seq<char>, ParamModel)>::empty());
            assert(r@.dom() =~= Set::<Seq<char>>::empty());
        }
        r
    }

    fn find(&self, key: &str) -> (r: Option<usize>)
        ensures
            match r {
                Some(i) => key_index(self.entries_view(), key@) == i as int,
                None => key_index(self.entries_view(), key@) < 0,
            },
    {
        let n = self.entries.len();
        let mut i: usize = 0;
        proof {
            lemma_key_index(self.entries_view(), key@);
        }
        while i < n
            invariant
                i <= n,
                n == self.entries_view().len(),
                n == self.entries@.len(),
                forall|j: int| 0 <= j < i ==> (#[trigger] self.entries_view()[j]).0 != key@,
                key_index(self.entries_view(), key@) >= 0 ==> key_index(self.entries_view(), key@)
                    < self.entries_view().len() && self.entries_view()[key_index(
                    self.entries_view(),
                    key@,
                )].0 == key@ && forall|j: int|
                    0 <= j < key_index(self.entries_view(), key@) ==> (#[trigger] self.entries_view()[j]).0
                        != key@,
                key_index(self.entries_view(), key@) < 0 ==> forall|j: int|
                    0 <= j < self.entries_view().len() ==> (#[trigger] self.entries_view()[j]).0
                        != key@,
            decreases n - i,
        {
            if text::str_eq(self.entries[i].0.as_str(), key) {
                proof {
                    let sv = self.entries_view();
                    let ki = key_index(sv, key@);
                    assert(sv[i as int].0 == key@);
                    assert(ki >= 0);
                    if ki < i {
                        assert(sv[ki].0 == key@);
                    } else if ki > i {
                        assert(sv[i as int].0 != key@);
                    }
                }
                return Some(i);
            }
            i += 1;
        }
        proof {
            if key_index(self.entries_view(), key@) >= 0 {
                assert(self.entries_view()[key_index(self.entries_view(), key@)].0 != key@);
            }
        }
        None
    }

    /// Whether a parameter with this name has been declared.
    pub fn contains_key(&self, key: &str) -> (r: bool)
        ensures
            r == self@.dom().contains(key@),
    {
        proof {
            lemma_key_index(self.entries_view(), key@);
            lemma_assoc_contains(self.entries_view(), key@);
        }
        match self.find(key) {
            Some(_) => true,
            None => false,
        }
    }

    /// Declares a config item: the parameter named `key` now carries
    /// `default` and `about`, unfrozen, whether or not it existed before.
    pub fn item(self, key: &str, default: Value, about: &str) -> (r: Form)
        requires
            self.wf(),
        ensures
            r.wf(),
            r@ == self@.insert(
                key@,
                ParamModel { value: default@, about: about@, frozen: false },
            ),
    {
        let mut s = self;
        let ghost sv = s.entries_view();
        let p = Parameter { value: default, about: about.to_owned(), frozen: false };
        proof {
            lemma_key_index(sv, key@);
        }
        match s.find(key) {
            Some(i) => {
                let _ = s.entries.remove(i);
                s.entries.insert(i, (key.to_owned(), p));
                proof {
                    assert(s.entries_view() =~= sv.update(i as int, (key@, p@)));
                    lemma_assoc_update(sv, i as int, (key@, p@));
                }
            },
            None => {
                s.entries.push((key.to_owned(), p));
                proof {
                    assert(s.entries_view() =~= sv.push((key@, p@)));
                    lemma_assoc_push(sv, (key@, p@));
                }
            },
        }
        s
    }

    /// The value of a declared parameter.
    pub fn get(&self, key: &str) -> (r: &Value)
        requires
            self.wf(),
            self@.dom().contains(key@),
        ensures
            r@ == self@[key@].value,
    {
        proof {
            lemma_key_index(self.entries_view(), key@);
            lemma_assoc_contains(self.entries_view(), key@);
        }
        let i = match self.find(key) {
            Some(i) => i,
            None => {
                proof {
                    assert(false);
                }
                0
            },
        };
        proof {
            lemma_assoc_index(self.entries_view(), i as int);
            assert(self.entries_view()[i as int] == (self.entries@[i as int].0@, self.entries@[
                i as int
            ].1@));
        }
        &self.entries[i].1.value
    }

    /// The description of a declared parameter.
    pub fn about(&self, key: &str) -> (r: &str)
        requires
            self.wf(),
            self@.dom().contains(key@),
        ensures
            r@ == self@[key@].about,
    {
        proof {
            lemma_key_index(self.entries_view(), key@);
            lemma_assoc_contains(self.entries_view(), key@);
        }
        let i = match self.find(key) {
            Some(i) => i,
            None => {
                proof {
                    assert(false);
                }
                0
            },
        };
        proof {
            lemma_assoc_index(self.entries_view(), i as int);
            assert(self.entries_view()[i as int] == (self.entries@[i as int].0@, self.entries@[
                i as int
            ].1@));
        }
        self.entries[i].1.about.as_str()
    }

    /// Whether a declared parameter is frozen.
    pub fn is_frozen(&self, key: &str) -> (r: bool)
        requires
            self.wf(),
            self@.dom().contains(key@),
        ensures
            r == self@[key@].frozen,
    {
        proof {
            lemma_key_index(self.entries_view(), key@);
            lemma_assoc_contains(self.entries_view(), key@);
        }
        let i = match self.find(key) {
            Some(i) => i,
            None => {
                proof {
                    assert(false);
                }
                0
            },
        };
        proof {
            lemma_assoc_index(self.entries_view(), i as int);
            assert(self.entries_view()[i as int] == (self.entries@[i as int].0@, self.entries@[
                i as int
            ].1@));
        }
        self.entries[i].1.frozen
    }

    /// Marks the declared parameter `key` as frozen.
    pub fn freeze(self, key: &str) -> (r: Form)
        requires
            self.wf(),
            self@.dom().contains(key@),
        ensures
            r.wf(),
            r@ == self@.insert(
                key@,
                ParamModel { value: self@[key@].value, about: self@[key@].about, frozen: true },
            ),
    {
        let mut s = self;
        let ghost sv = s.entries_view();
        proof {
            lemma_key_index(sv, key@);
            lemma_assoc_contains(sv, key@);
        }
        let i = match s.find(key) {
            Some(i) => i,
            None => {
                proof {
                    assert(false);
                }
                0
            },
        };
        proof {
            lemma_assoc_index(sv, i as int);
        }
        let removed = s.entries.remove(i);
        let frozen_param = Parameter { value: removed.1.value, about: removed.1.about, frozen: true };
        s.entries.insert(i, (removed.0, frozen_param));
        proof {
            assert(s.entries_view() =~= sv.update(i as int, (key@, frozen_param@)));
            lemma_assoc_update(sv, i as int, (key@, frozen_param@));
            assert(frozen_param@ =~= ParamModel {
                value: self@[key@].value,
                about: self@[key@].about,
                frozen: true,
            });
        }
        s
    }

    /// Merges in the contents of a name-to-value map. Updates are checked
    /// and applied in the order `items` lists them; the first update whose
    /// key is undeclared, whose kind disagrees with the declaration, or
    /// that would change a frozen parameter stops the merge with an error
    /// naming it.
    pub fn merge_value_map(self, items: &ValueMap) -> (r: Result<Form, ConfigError>)
        requires
            self.wf(),
            items.wf(),
        ensures
            (r is Ok) == all_updates_ok(self@, items@),
            r matches Ok(f) ==> f.wf() && f@ == spec_merged(self@, assoc_map_of(items@)),
            r matches Err(e) ==> is_first_update_err(self@, items@, e@),
    {
        let ghost m0 = self@;
        let mut cur = self;
        let n = items.len();
        let mut idx: usize = 0;
        proof {
            assert(items@.take(0) =~= Seq::<(Seq<char>, ValueModel)>::empty());
            assert(cur@ =~= spec_merged(m0, assoc_map_of(items@.take(0))));
        }
        while idx < n
            invariant
                cur.wf(),
                items.wf(),
                m0 == self@,
                n == items@.len(),
                idx <= n,
                cur@ == spec_merged(m0, assoc_map_of(items@.take(idx as int))),
                forall|j: int| 0 <= j < idx ==> update_ok(m0, (#[trigger] items@[j]).0, items@[j].1),
            decreases n - idx,
        {
            let key = items.key_at(idx);
            let new_value = items.value_at(idx);
            let ghost k = items@[idx as int].0;
            let ghost v = items@[idx as int].1;
            let ghost u_pre = assoc_map_of(items@.take(idx as int));
            proof {
                assert(distinct_keys(items@.take(idx as int))) by {
                    assert(forall|j: int|
                        0 <= j < idx ==> #[trigger] items@.take(idx as int)[j] == items@[j]);
                }
                lemma_assoc_contains(items@.take(idx as int), k);
                assert(!u_pre.dom().contains(k)) by {
                    if exists|j: int|
                        0 <= j < idx && (#[trigger] items@.take(idx as int)[j]).0 == k {
                        let j = choose|j: int|
                            0 <= j < idx && (#[trigger] items@.take(idx as int)[j]).0 == k;
                        assert(items@[j].0 == items@[idx as int].0);
                    }
                }
                assert(cur@.dom().contains(k) == m0.dom().contains(k));
                if m0.dom().contains(k) {
                    assert(cur@[k] == m0[k]);
                }
                lemma_key_index(cur.entries_view(), k);
                lemma_assoc_contains(cur.entries_view(), k);
            }
            match cur.find(key.as_str()) {
                None => {
                    proof {
                        assert(!cur@.dom().contains(k));
                        assert(!update_ok(m0, k, v));
                        assert(update_why(m0, k, v) == "is not a valid key"@);
                    }
                    return Err(ConfigError::new(key.as_str(), "is not a valid key"));
                },
                Some(i) => {
                    proof {
                        lemma_assoc_index(cur.entries_view(), i as int);
                        assert(cur.entries_view()[i as int] == (
                            cur.entries@[i as int].0@,
                            cur.entries@[i as int].1@,
                        ));
                        assert(cur.entries@[i as int].1@ == m0[k]);
                    }
                    if !new_value.same_kind_as(&cur.entries[i].1.value) {
                        proof {
                            assert(!update_ok(m0, k, v));
                            assert(update_why(m0, k, v) == "has the wrong type"@);
                        }
                        return Err(ConfigError::new(key.as_str(), "has the wrong type"));
                    }
                    if cur.entries[i].1.frozen && !cur.entries[i].1.value.same_as(new_value) {
                        proof {
                            assert(!update_ok(m0, k, v));
                            assert(update_why(m0, k, v) == "cannot be modified"@);
                        }
                        return Err(ConfigError::new(key.as_str(), "cannot be modified"));
                    }
                    proof {
                        assert(update_ok(m0, k, v));
                    }
                    let ghost sv = cur.entries_view();
                    let removed = cur.entries.remove(i);
                    let updated = Parameter {
                        value: new_value.clone(),
                        about: removed.1.about,
                        frozen: removed.1.frozen,
                    };
                    cur.entries.insert(i, (removed.0, updated));
                    proof {
                        assert(cur.entries_view() =~= sv.update(i as int, (k, updated@)));
                        lemma_assoc_update(sv, i as int, (k, updated@));
                        assert(items@.take(idx + 1) =~= items@.take(idx as int).push(
                            items@[idx as int],
                        ));
                        lemma_assoc_push(items@.take(idx as int), items@[idx as int]);
                        assert(assoc_map_of(items@.take(idx + 1)) == u_pre.insert(k, v));
                        assert(cur@ =~= spec_merged(m0, u_pre.insert(k, v)));
                    }
                    idx += 1;
                },
            }
        }
        proof {
            assert(items@.take(n as int) =~= items@);
        }
        Ok(cur)
    }

    /// As [`Form::merge_value_map`], and then freezes every key that is
    /// named in `to_freeze` and was present in `items`; keys absent from
    /// `items` are left untouched whether or not `to_freeze` names them.
    pub fn merge_value_map_freezing(self, items: &ValueMap, to_freeze: &Vec<String>) -> (r: Result<
        Form,
        ConfigError,
    >)
        requires
            self.wf(),
            items.wf(),
        ensures
            (r is Ok) == all_updates_ok(self@, items@),
            r matches Ok(f) ==> f.wf() && f@ == spec_merged_freezing(
                self@,
                assoc_map_of(items@),
                to_freeze@.map_values(|s: String| s@),
            ),
            r matches Err(e) ==> is_first_update_err(self@, items@, e@),
    {
        let ghost m0 = self@;
        let ghost u = assoc_map_of(items@);
        let ghost fzv = to_freeze@.map_values(|s: String| s@);
        let mut f = match self.merge_value_map(items) {
            Ok(f) => f,
            Err(e) => {
                return Err(e);
            },
        };
        let n = to_freeze.len();
        let mut t: usize = 0;
        proof {
            assert(fzv.take(0) =~= Seq::<Seq<char>>::empty());
            assert(f@ =~= spec_merged_freezing(m0, u, fzv.take(0)));
        }
        while t < n
            invariant
                f.wf(),
                items.wf(),
                m0 == self@,
                n == to_freeze@.len(),
                fzv == to_freeze@.map_values(|s: String| s@),
                t <= n,
                all_updates_ok(m0, items@),
                u == assoc_map_of(items@),
                f@ == spec_merged_freezing(m0, u, fzv.take(t as int)),
            decreases n - t,
        {
            let kt = &to_freeze[t];
            let ghost kk = fzv[t as int];
            proof {
                assert(kk == to_freeze@[t as int]@);
                assert(fzv.take(t + 1) =~= fzv.take(t as int).push(kk));
            }
            if items.contains_key(kt.as_str()) {
                proof {
                    lemma_assoc_contains(items@, kk);
                    let j = choose|j: int| 0 <= j < items@.len() && (#[trigger] items@[j]).0 == kk;
                    assert(update_ok(m0, items@[j].0, items@[j].1));
                    assert(m0.dom().contains(kk));
                    assert(f@.dom().contains(kk));
                    lemma_key_index(f.entries_view(), kk);
                    lemma_assoc_contains(f.entries_view(), kk);
                }
                let i = match f.find(kt.as_str()) {
                    Some(i) => i,
                    None => {
                        proof {
                            assert(false);
                        }
                        0
                    },
                };
                proof {
                    lemma_assoc_index(f.entries_view(), i as int);
                }
                let ghost sv = f.entries_view();
                let removed = f.entries.remove(i);
                let frozen_param = Parameter {
                    value: removed.1.value,
                    about: removed.1.about,
                    frozen: true,
                };
                f.entries.insert(i, (removed.0, frozen_param));
                proof {
                    assert(f.entries_view() =~= sv.update(i as int, (kk, frozen_param@)));
                    lemma_assoc_update(sv, i as int, (kk, frozen_param@));
                    assert forall|x: Seq<char>| #[trigger] fzv.take(t + 1).contains(x) && x != kk
                        implies fzv.take(t as int).contains(x) by {
                        let ix = choose|ix: int|
                            0 <= ix < fzv.take(t + 1).len() && (#[trigger] fzv.take(t + 1)[ix])
                                == x;
                        assert(fzv.take(t as int)[ix] == x);
                    }
                    assert forall|x: Seq<char>| #[trigger] fzv.take(t as int).contains(x) implies
                        fzv.take(t + 1).contains(x) by {
                        let ix = choose|ix: int|
                            0 <= ix < fzv.take(t as int).len() && (#[trigger] fzv.take(t as int)[
                                ix
                            ]) == x;
                        assert(fzv.take(t + 1)[ix] == x);
                    }
                    assert(fzv.take(t + 1)[t as int] == kk);
                    assert(fzv.take(t + 1).contains(kk));
                    assert(f@ =~= spec_merged_freezing(m0, u, fzv.take(t + 1)));
                }
            } else {
                proof {
                    assert forall|x: Seq<char>| #[trigger] fzv.take(t + 1).contains(x) && x != kk
                        implies fzv.take(t as int).contains(x) by {
                        let ix = choose|ix: int|
                            0 <= ix < fzv.take(t + 1).len() && (#[trigger] fzv.take(t + 1)[ix])
                                == x;
                        assert(fzv.take(t as int)[ix] == x);
                    }
                    assert forall|x: Seq<char>| #[trigger] fzv.take(t as int).contains(x) implies
                        fzv.take(t + 1).contains(x) by {
                        let ix = choose|ix: int|
                            0 <= ix < fzv.take(t as int).len() && (#[trigger] fzv.take(t as int)[
                                ix
                            ]) == x;
                        assert(fzv.take(t + 1)[ix] == x);
                    }
                    assert(f@ =~= spec_merged_freezing(m0, u, fzv.take(t + 1)));
                }
            }
            t += 1;
        }
        proof {
            assert(fzv.take(n as int) =~= fzv);
        }
        Ok(f)
    }

    /// Parses every entry of a raw-string map at its key's declared kind.
    fn string_map_to_value_map(&self, dict: &crate::maps::StringMap) -> (r: Result<
        ValueMap,
        ConfigError,
    >)
        requires
            self.wf(),
            dict.wf(),
        ensures
            (r is Ok) == all_parses_ok(self@, dict@),
            r matches Ok(vm) ==> vm.wf() && vm@ == parsed_entries(self@, dict@),
            r matches Err(e) ==> is_first_parse_err(self@, dict@, e@),
    {
        let ghost m = self@;
        let mut vm = ValueMap::new();
        let n = dict.len();
        let mut i: usize = 0;
        proof {
            assert(dict@.take(0) =~= Seq::<(Seq<char>, Seq<char>)>::empty());
            assert(vm@ =~= parsed_entries(m, dict@.take(0)));
        }
        while i < n
            invariant
                self.wf(),
                dict.wf(),
                vm.wf(),
                m == self@,
                n == dict@.len(),
                i <= n,
                vm@ == parsed_entries(m, dict@.take(i as int)),
                vm@.len() == i,
                forall|j: int|
                    0 <= j < i ==> parse_entry_ok(m, (#[trigger] dict@[j]).0, dict@[j].1),
            decreases n - i,
        {
            let key = dict.key_at(i);
            let raw = dict.value_at(i);
            let ghost k = dict@[i as int].0;
            proof {
                lemma_key_index(self.entries_view(), k);
                lemma_assoc_contains(self.entries_view(), k);
            }
            let fi = match self.find(key.as_str()) {
                Some(fi) => fi,
                None => {
                    proof {
                        assert(!m.dom().contains(k));
                        assert(!parse_entry_ok(m, k, dict@[i as int].1));
                    }
                    return Err(ConfigError::new(key.as_str(), "is not a valid key"));
                },
            };
            proof {
                lemma_assoc_index(self.entries_view(), fi as int);
                assert(self.entries_view()[fi as int] == (
                    self.entries@[fi as int].0@,
                    self.entries@[fi as int].1@,
                ));
                assert(self.entries@[fi as int].1@ == m[k]);
            }
            let parsed = match self.entries[fi].1.value.parse_as(raw.as_str()) {
                Some(v) => v,
                None => {
                    let why = match &self.entries[fi].1.value {
                        Value::B(_) => "is a badly formed bool",
                        Value::I(_) => "is a badly formed int",
                        Value::F(_) => "is a badly formed float",
                        Value::S(_) => "is a badly formed string",
                    };
                    proof {
                        assert(!parse_entry_ok(m, k, dict@[i as int].1));
                        assert(why@ == parse_entry_why(m, k, dict@[i as int].1));
                    }
                    return Err(ConfigError::new(key.as_str(), why));
                },
            };
            proof {
                assert(parse_entry_ok(m, k, dict@[i as int].1));
                assert(forall|j: int|
                    0 <= j < i ==> (#[trigger] vm@[j]).0 == dict@.take(i as int)[j].0);
                lemma_key_index(vm@, k);
                if key_index(vm@, k) >= 0 {
                    let ki = key_index(vm@, k);
                    assert(vm@[ki].0 == dict@[ki].0);
                    assert(dict@[ki].0 == dict@[i as int].0);
                    assert(false);
                }
            }
            vm.insert(key.as_str(), parsed);
            proof {
                assert(dict@.take(i + 1) =~= dict@.take(i as int).push(dict@[i as int]));
                assert(vm@ =~= parsed_entries(m, dict@.take(i + 1)));
            }
            i += 1;
        }
        proof {
            assert(dict@.take(n as int) =~= dict@);
        }
        Ok(vm)
    }

    /// Merges in the contents of a raw-string map: each entry is parsed at
    /// its key's declared kind, and the parsed updates are then merged as
    /// [`Form::merge_value_map`] does. A parse failure is reported before
    /// any update check.
    pub fn merge_string_map(self, dict: &crate::maps::StringMap) -> (r: Result<Form, ConfigError>)
        requires
            self.wf(),
            dict.wf(),
        ensures
            (r is Ok) == (all_parses_ok(self@, dict@) && all_updates_ok(
                self@,
                parsed_entries(self@, dict@),
            )),
            r matches Ok(f) ==> f.wf() && f@ == spec_merged(
                self@,
                assoc_map_of(parsed_entries(self@, dict@)),
            ),
            r matches Err(e) ==> is_first_parse_err(self@, dict@, e@) || (all_parses_ok(
                self@,
                dict@,
            ) && is_first_update_err(self@, parsed_entries(self@, dict@), e@)),
    {
        match self.string_map_to_value_map(dict) {
            Err(e) => Err(e),
            Ok(items) => self.merge_value_map(&items),
        }
    }

    /// Merges in a sequence of `key=value` arguments, each key appearing
    /// at most once: the arguments become a string map, which is merged
    /// as [`Form::merge_string_map`] does.
    pub fn merge_string_args(self, args: &Vec<String>) -> (r: Result<Form, ConfigError>)
        requires
            self.wf(),
        ensures
            (r is Ok) == ({
                let d = args_fold(arg_views(args@));
                &&& (forall|i: int|
                    0 <= i < args@.len() ==> args_entry_ok(arg_views(args@), i, false))
                &&& all_parses_ok(self@, d)
                &&& all_updates_ok(self@, parsed_entries(self@, d))
            }),
            r matches Ok(f) ==> f.wf() && f@ == spec_merged(
                self@,
                assoc_map_of(parsed_entries(self@, args_fold(arg_views(args@)))),
            ),
            r matches Err(e) ==> ({
                let d = args_fold(arg_views(args@));
                ||| is_first_arg_err(arg_views(args@), false, e@)
                ||| ((forall|i: int|
                    0 <= i < args@.len() ==> args_entry_ok(arg_views(args@), i, false))
                    && (is_first_parse_err(self@, d, e@) || (all_parses_ok(self@, d)
                    && is_first_update_err(self@, parsed_entries(self@, d), e@))))
            }),
    {
        match crate::args::to_string_map_from_key_val_pairs(args) {
            Err(e) => Err(e),
            Ok(sm) => self.merge_string_map(&sm),
        }
    }

    /// As [`Form::merge_string_args`], with a later `key=value` for a
    /// repeated key replacing the earlier one instead of failing.
    pub fn merge_string_args_allowing_duplicates(self, args: &Vec<String>) -> (r: Result<
        Form,
        ConfigError,
    >)
        requires
            self.wf(),
        ensures
            (r is Ok) == ({
                let d = args_fold(arg_views(args@));
                &&& (forall|i: int|
                    0 <= i < args@.len() ==> args_entry_ok(arg_views(args@), i, true))
                &&& all_parses_ok(self@, d)
                &&& all_updates_ok(self@, parsed_entries(self@, d))
            }),
            r matches Ok(f) ==> f.wf() && f@ == spec_merged(
                self@,
                assoc_map_of(parsed_entries(self@, args_fold(arg_views(args@)))),
            ),
            r matches Err(e) ==> ({
                let d = args_fold(arg_views(args@));
                ||| is_first_arg_err(arg_views(args@), true, e@)
                ||| ((forall|i: int|
                    0 <= i < args@.len() ==> args_entry_ok(arg_views(args@), i, true))
                    && (is_first_parse_err(self@, d, e@) || (all_parses_ok(self@, d)
                    && is_first_update_err(self@, parsed_entries(self@, d), e@))))
            }),
    {
        match crate::args::to_string_map_from_key_val_pairs_allowing_duplicates(args) {
            Err(e) => Err(e),
            Ok(sm) => self.merge_string_map(&sm),
        }
    }

    /// A map of the current values, with descriptions and frozen flags
    /// stripped: the shape the persistence adapter reads and writes.
    pub fn value_map(&self) -> (r: ValueMap)
        requires
            self.wf(),
        ensures
            r.wf(),
            assoc_map_of(r@) == spec_value_map(self@),
            r@.len() == self@.dom().len(),
    {
        let ghost sv = self.entries_view();
        let mut vm = ValueMap::new();
        let n = self.entries.len();
        let mut i: usize = 0;
        proof {
            assert(sv.take(0) =~= Seq::<(Seq<char>, ParamModel)>::empty());
            assert(assoc_map_of(vm@) =~= spec_value_map(assoc_map_of(sv.take(0))));
        }
        while i < n
            invariant
                self.wf(),
                vm.wf(),
                sv == self.entries_view(),
                n == self.entries@.len(),
                n == sv.len(),
                i <= n,
                assoc_map_of(vm@) == spec_value_map(assoc_map_of(sv.take(i as int))),
                vm@.len() == i,
            decreases n - i,
        {
            let ghost k = sv[i as int].0;
            proof {
                assert(sv[i as int] == (self.entries@[i as int].0@, self.entries@[i as int].1@));
                assert(distinct_keys(sv.take(i as int))) by {
                    assert(forall|j: int| 0 <= j < i ==> #[trigger] sv.take(i as int)[j] == sv[j]);
                }
                lemma_key_index(vm@, k);
                lemma_assoc_contains(vm@, k);
                lemma_assoc_contains(sv.take(i as int), k);
                if key_index(vm@, k) >= 0 {
                    assert(assoc_map_of(vm@).dom().contains(k)) by {
                        assert(vm@[key_index(vm@, k)].0 == k);
                    }
                    assert(assoc_map_of(sv.take(i as int)).dom().contains(k));
                    let j = choose|j: int|
                        0 <= j < i && (#[trigger] sv.take(i as int)[j]).0 == k;
                    assert(sv[j].0 == sv[i as int].0);
                    assert(false);
                }
            }
            vm.insert(self.entries[i].0.as_str(), self.entries[i].1.value.clone());
            proof {
                assert(sv.take(i + 1) =~= sv.take(i as int).push(sv[i as int]));
                lemma_assoc_push(sv.take(i as int), sv[i as int]);
                assert(assoc_map_of(vm@) =~= spec_value_map(assoc_map_of(sv.take(i + 1))));
            }
            i += 1;
        }
        proof {
            assert(sv.take(n as int) =~= sv);
            lemma_assoc_len(sv);
        }
        vm
    }

    /// A vector of the declared names, sorted lexicographically by code
    /// point and free of repeats.
    pub fn sorted_keys(&self) -> (r: Vec<String>)
        requires
            self.wf(),
        ensures
            r@.len() == self@.dom().len(),
            keys_sorted(r@),
            forall|i: int| 0 <= i < r@.len() ==> self@.dom().contains((#[trigger] r@[i])@),
            forall|k: Seq<char>| #[trigger] self@.dom().contains(k) ==> name_listed(r@, k),
    {
        let ghost sv = self.entries_view();
        let mut r: Vec<String> = Vec::new();
        let n = self.entries.len();
        let mut idx: usize = 0;
        while idx < n
            invariant
                self.wf(),
                sv == self.entries_view(),
                n == self.entries@.len(),
                n == sv.len(),
                idx <= n,
                r@.len() == idx,
                keys_sorted(r@),
                forall|i: int| 0 <= i < idx ==> name_listed(r@, (#[trigger] sv[i]).0),
                forall|p: int| 0 <= p < r@.len() ==> among_first(sv, idx as int, (#[trigger] r@[p])@),
            decreases n - idx,
        {
            let x = self.entries[idx].0.clone();
            proof {
                assert(sv[idx as int] == (self.entries@[idx as int].0@, self.entries@[
                    idx as int
                ].1@));
                assert(x@ == sv[idx as int].0);
                assert forall|p: int| 0 <= p < r@.len() implies (#[trigger] r@[p])@ != x@ by {
                    assert(among_first(sv, idx as int, r@[p]@));
                    let i = choose|i: int| 0 <= i < idx && (#[trigger] sv[i]).0 == r@[p]@;
                    assert(sv[i].0 != sv[idx as int].0);
                }
            }
            let ghost before = r@;
            insert_sorted(&mut r, x);
            proof {
                assert forall|i: int| 0 <= i < idx + 1 implies name_listed(
                    r@,
                    (#[trigger] sv[i]).0,
                ) by {
                    if i < idx {
                        assert(name_listed(before, sv[i].0));
                        let p0 = choose|p0: int|
                            0 <= p0 < before.len() && (#[trigger] before[p0])@ == sv[i].0;
                        assert(name_listed(r@, before[p0]@));
                    } else {
                        assert(name_listed(r@, x@));
                    }
                }
                assert forall|p: int| 0 <= p < r@.len() implies among_first(
                    sv,
                    idx + 1,
                    (#[trigger] r@[p])@,
                ) by {
                    if r@[p]@ == x@ {
                        assert(sv[idx as int].0 == r@[p]@);
                    } else {
                        assert(name_listed(before, r@[p]@));
                        let q = choose|q: int|
                            0 <= q < before.len() && (#[trigger] before[q])@ == r@[p]@;
                        assert(among_first(sv, idx as int, before[q]@));
                        let i = choose|i: int|
                            0 <= i < idx && (#[trigger] sv[i]).0 == before[q]@;
                        assert(sv[i].0 == r@[p]@);
                    }
                }
            }
            idx += 1;
        }
        proof {
            lemma_assoc_len(sv);
            assert forall|i: int| 0 <= i < r@.len() implies self@.dom().contains(
                (#[trigger] r@[i])@,
            ) by {
                assert(among_first(sv, n as int, r@[i]@));
                let j = choose|j: int| 0 <= j < n && (#[trigger] sv[j]).0 == r@[i]@;
                lemma_assoc_index(sv, j);
            }
            assert forall|k: Seq<char>| #[trigger] self@.dom().contains(k) implies name_listed(
                r@,
                k,
            ) by {
                lemma_assoc_contains(sv, k);
                let j = choose|j: int| 0 <= j < sv.len() && (#[trigger] sv[j]).0 == k;
                assert(name_listed(r@, sv[j].0));
            }
        }
        r
    }

    /// The number of declared parameters.
    pub fn len(&self) -> (r: usize)
        requires
            self.wf(),
        ensures
            r == self@.dom().len(),
    {
        proof {
            lemma_assoc_len(self.entries_view());
        }
        self.entries.len()
    }
}

} // verus!
