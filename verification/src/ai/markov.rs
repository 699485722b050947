//! Transition counts between files: after opening one file, which files
//! were opened next and how often. The count of distinct transitions is
//! capped.
use vstd::prelude::*;
use std::collections::HashMap;
use vstd::string::*;
use crate::walk::{keys_in_walk_order, lemma_insert_desc, sorted_desc, walk_order};

verus! {

broadcast use {vstd::std_specs::hash::group_hash_axioms, vstd::string::group_string_axioms};

/// A transition: the next file, its name and how often it followed.
pub type Transition = (u64, String, u32);

/// Index of the first transition to `next` in `list`, if any.
pub open spec fn first_to(list: Seq<Transition>, next: u64, i: int) -> bool {
    &&& 0 <= i < list.len()
    &&& list[i].0 == next
    &&& forall|j: int| 0 <= j < i ==> (#[trigger] list[j]).0 != next
}

/// Some transition in `list` goes to `next`.
pub open spec fn has_transition(list: Seq<Transition>, next: u64) -> bool {
    exists|j: int| 0 <= j < list.len() && (#[trigger] list[j]).0 == next
}

/// A transition as text.
pub open spec fn transition_text(t: Transition) -> (u64, Seq<char>, u32) {
    (t.0, t.1@, t.2)
}

/// How often a transition followed, the key predictions are ranked by.
pub open spec fn count_key() -> spec_fn((u64, Seq<char>, u32)) -> int {
    |t: (u64, Seq<char>, u32)| t.2 as int
}

/// Some transition in `list` has been counted.
pub open spec fn counted(list: Seq<Transition>) -> bool {
    exists|j: int| 0 <= j < list.len() && (#[trigger] list[j]).2 > 0
}

/// The stored (file, position in its list) pairs of a table, one per
/// recorded transition.
pub open spec fn stored_pairs(t: Map<u64, Vec<Transition>>) -> Set<(u64, int)> {
    Set::new(|x: (u64, int)| t.contains_key(x.0) && 0 <= x.1 < t[x.0]@.len())
}

/// The entry count tracks the transitions stored: it is the number of
/// stored pairs, of which there are finitely many.
pub open spec fn count_tracks_pairs(t: Map<u64, Vec<Transition>>, count: usize) -> bool {
    stored_pairs(t).finite() && count == stored_pairs(t).len()
}

pub struct MarkovPrefetcher {
    /// ino -> transitions out of it, in the order first seen.
    pub transitions: HashMap<u64, Vec<Transition>>,
    entry_count: usize,
    max_entries: usize,
}

impl MarkovPrefetcher {
    pub closed spec fn table(&self) -> Map<u64, Vec<Transition>> {
        self.transitions@
    }

    pub closed spec fn spec_entry_count(&self) -> usize {
        self.entry_count
    }

    pub closed spec fn spec_max_entries(&self) -> usize {
        self.max_entries
    }

    /// The transitions recorded after `ino`.
    pub open spec fn out_of(&self, ino: u64) -> Seq<Transition> {
        if self.table().contains_key(ino) {
            self.table()[ino]@
        } else {
            Seq::empty()
        }
    }

    pub fn new(max_entries: usize) -> (r: Self)
        ensures
            r.table() == Map::<u64, Vec<Transition>>::empty(),
            r.spec_entry_count() == 0,
            r.spec_max_entries() == max_entries,
            count_tracks_pairs(r.table(), r.spec_entry_count()),
    {
        let r = Self { transitions: HashMap::new(), entry_count: 0, max_entries };
        proof {
            assert(stored_pairs(r.transitions@) =~= Set::<(u64, int)>::empty());
        }
        r
    }

    /// Record that `next_ino` was opened after `prev_ino`: its count goes up
    /// by one, or it is added with count 1 while the cap allows.
    #[verifier::loop_isolation(false)]
    pub fn record_transition(&mut self, prev_ino: u64, next_ino: u64, next_name: &str)
        requires
            forall|j: int| 0 <= j < old(self).out_of(prev_ino).len() && (#[trigger] old(self).out_of(prev_ino)[j]).0 == next_ino
                ==> old(self).out_of(prev_ino)[j].2 < u32::MAX,
        ensures
            final(self).spec_max_entries() == old(self).spec_max_entries(),
            old(self).spec_entry_count() >= old(self).spec_max_entries() ==> final(self).table() == old(self).table()
                && final(self).spec_entry_count() == old(self).spec_entry_count(),
            old(self).spec_entry_count() < old(self).spec_max_entries() ==> {
                let pre = old(self).out_of(prev_ino);
                &&& final(self).table().dom() == old(self).table().dom().insert(prev_ino)
                &&& forall|k: u64| k != prev_ino && #[trigger] old(self).table().contains_key(k)
                    ==> final(self).table()[k] == old(self).table()[k]
                &&& has_transition(pre, next_ino) ==> exists|i: int| #[trigger] first_to(pre, next_ino, i)
                    && final(self).out_of(prev_ino) == pre.update(i, (pre[i].0, pre[i].1, (pre[i].2 + 1) as u32))
                    && final(self).spec_entry_count() == old(self).spec_entry_count()
                &&& !has_transition(pre, next_ino) ==> final(self).out_of(prev_ino).len() == pre.len() + 1
                    && final(self).out_of(prev_ino).take(pre.len() as int) == pre
                    && final(self).out_of(prev_ino).last().0 == next_ino
                    && final(self).out_of(prev_ino).last().1@ == next_name@
                    && final(self).out_of(prev_ino).last().2 == 1
                    && final(self).spec_entry_count() == old(self).spec_entry_count() + 1
            },
            count_tracks_pairs(old(self).table(), old(self).spec_entry_count()) ==> count_tracks_pairs(
                final(self).table(),
                final(self).spec_entry_count(),
            ),
    {
        if self.entry_count >= self.max_entries {
            return;
        }
        let mut list: Vec<Transition> = match self.transitions.remove(&prev_ino) {
            Some(l) => l,
            None => Vec::new(),
        };
        let ghost pre = list@;
        assert(pre == old(self).out_of(prev_ino));
        let mut i: usize = 0;
        while i < list.len()
            invariant
                list@ == pre,
                i <= pre.len(),
                self.entry_count == old(self).entry_count,
                self.entry_count < self.max_entries,
                self.max_entries == old(self).max_entries,
                self.transitions@ == old(self).transitions@.remove(prev_ino),
                forall|j: int| 0 <= j < i ==> (#[trigger] pre[j]).0 != next_ino,
            decreases pre.len() - i,
        {
            if list[i].0 == next_ino {
                assert(first_to(pre, next_ino, i as int));
                let (ino, name, count) = list.remove(i);
                list.insert(i, (ino, name, count + 1));
                assert(list@ =~= pre.update(i as int, (pre[i as int].0, pre[i as int].1, (pre[i as int].2 + 1) as u32)));
                self.transitions.insert(prev_ino, list);
                proof {
                    assert(old(self).transitions@.contains_key(prev_ino));
                    assert(stored_pairs(self.transitions@) =~= stored_pairs(old(self).transitions@));
                }
                return;
            }
            i = i + 1;
        }
        assert(!has_transition(pre, next_ino));
        list.push((next_ino, next_name.to_string(), 1));
        self.transitions.insert(prev_ino, list);
        self.entry_count = self.entry_count + 1;
        assert(self.out_of(prev_ino).take(pre.len() as int) =~= pre);
        proof {
            let x = (prev_ino, pre.len() as int);
            assert(!stored_pairs(old(self).transitions@).contains(x));
            assert(stored_pairs(self.transitions@) =~= stored_pairs(old(self).transitions@).insert(x));
        }
    }

    /// The transitions out of `ino` by how often they followed, most
    /// frequent first, equal counts in the order first seen; nothing when
    /// none has been counted.
    pub fn ranked_transitions(&self, ino: u64) -> (r: Vec<Transition>)
        ensures
            r@.map_values(|t: Transition| transition_text(t)) == (if counted(self.out_of(ino)) {
                sorted_desc(self.out_of(ino).map_values(|t: Transition| transition_text(t)), count_key())
            } else {
                Seq::empty()
            }),
    {
        let ghost views = self.out_of(ino).map_values(|t: Transition| transition_text(t));
        let list = match self.transitions.get(&ino) {
            Some(l) => l,
            None => {
                let r: Vec<Transition> = Vec::new();
                assert(r@.map_values(|t: Transition| transition_text(t)) =~= Seq::empty());
                return r;
            },
        };
        let mut any = false;
        let mut i: usize = 0;
        while i < list.len()
            invariant
                i <= list@.len(),
                list@ == self.out_of(ino),
                any == exists|j: int| 0 <= j < i && (#[trigger] list@[j]).2 > 0,
            decreases list@.len() - i,
        {
            if list[i].2 > 0 {
                any = true;
            }
            i = i + 1;
        }
        let mut r: Vec<Transition> = Vec::new();
        if !any {
            assert(r@.map_values(|t: Transition| transition_text(t)) =~= Seq::empty());
            return r;
        }
        let mut i: usize = 0;
        while i < list.len()
            invariant
                i <= list@.len(),
                list@ == self.out_of(ino),
                views == list@.map_values(|t: Transition| transition_text(t)),
                r@.map_values(|t: Transition| transition_text(t)) == sorted_desc(views.take(i as int), count_key()),
            decreases list@.len() - i,
        {
            let e = (list[i].0, list[i].1.clone(), list[i].2);
            let mut pos: usize = r.len();
            while pos > 0 && r[pos - 1].2 < e.2
                invariant
                    pos <= r@.len(),
                    r@.map_values(|t: Transition| transition_text(t)) == sorted_desc(views.take(i as int), count_key()),
                    forall|k: int| pos <= k < r@.len() ==> (#[trigger] r@[k]).2 < e.2,
                decreases pos,
            {
                pos = pos - 1;
            }
            let ghost old_r = r@;
            let ghost old_v = old_r.map_values(|t: Transition| transition_text(t));
            r.insert(pos, e);
            proof {
                assert forall|k: int| pos <= k < old_v.len() implies (count_key())(#[trigger] old_v[k]) < (count_key())(
                    transition_text(e),
                ) by {
                    assert(old_v[k] == transition_text(old_r[k]));
                }
                if pos > 0 {
                    assert(old_v[pos - 1] == transition_text(old_r[pos - 1]));
                }
                lemma_insert_desc(old_v, transition_text(e), count_key(), pos as int);
                assert(r@.map_values(|t: Transition| transition_text(t)) =~= old_v.insert(pos as int, transition_text(e)));
                assert(views.take(i + 1).drop_last() =~= views.take(i as int));
                assert(views[i as int] == transition_text(e));
            }
            i = i + 1;
        }
        assert(views.take(list@.len() as int) =~= views);
        r
    }

    pub fn entry_count(&self) -> (r: usize)
        ensures
            r == self.spec_entry_count(),
    {
        self.entry_count
    }
}

/// Recording never takes the number of distinct transitions past the cap.
pub proof fn lemma_entry_cap(before: usize, after: usize, max: usize)
    requires
        before <= max || before >= max && after == before,
        before >= max ==> after == before,
        before < max ==> after == before || after == before + 1,
    ensures
        before <= max ==> after <= max,
{
}

} // verus!

verus! {

// ── Replaying a saved table ─────────────────────────────────────────────────

/// A transition as text: next file, its name, its count.
pub type TransitionText = (u64, Seq<char>, u32);

/// A list of transitions as text.
pub open spec fn list_text(l: Seq<Transition>) -> Seq<TransitionText> {
    Seq::new(l.len(), |i: int| transition_text(l[i]))
}

/// A table of transitions as text.
pub open spec fn table_text(t: Map<u64, Vec<Transition>>) -> Map<u64, Seq<TransitionText>> {
    Map::new(|k: u64| t.contains_key(k), |k: u64| list_text(t[k]@))
}

/// The transitions out of `prev` in a table of texts.
pub open spec fn out_text(tab: Map<u64, Seq<TransitionText>>, prev: u64) -> Seq<TransitionText> {
    if tab.contains_key(prev) {
        tab[prev]
    } else {
        Seq::empty()
    }
}

/// `i` is the first position of a transition to `next` in `l`.
pub open spec fn first_at(l: Seq<TransitionText>, next: u64, i: int) -> bool {
    &&& 0 <= i < l.len()
    &&& l[i].0 == next
    &&& forall|j: int| 0 <= j < i ==> (#[trigger] l[j]).0 != next
}

/// Table and count after recording `prev → next` (named `name`) into
/// table `tab` holding `count` distinct transitions under the cap `max`.
pub open spec fn recorded(
    tab: Map<u64, Seq<TransitionText>>,
    count: nat,
    max: nat,
    prev: u64,
    next: u64,
    name: Seq<char>,
) -> (Map<u64, Seq<TransitionText>>, nat) {
    if count >= max {
        (tab, count)
    } else {
        let pre = out_text(tab, prev);
        if exists|i: int| first_at(pre, next, i) {
            let i = choose|i: int| first_at(pre, next, i);
            (tab.insert(prev, pre.update(i, (pre[i].0, pre[i].1, (pre[i].2 + 1) as u32))), count)
        } else {
            (tab.insert(prev, pre.push((next, name, 1u32))), count + 1)
        }
    }
}

/// Recording `prev → next` into `tab` leaves every count it bumps in range.
pub open spec fn record_fits(tab: Map<u64, Seq<TransitionText>>, prev: u64, next: u64) -> bool {
    forall|j: int| 0 <= j < out_text(tab, prev).len() && (#[trigger] out_text(tab, prev)[j]).0 == next
        ==> out_text(tab, prev)[j].2 < u32::MAX
}

/// The state after recording `prev → next` `times` times.
pub open spec fn recorded_times(
    s: (Map<u64, Seq<TransitionText>>, nat),
    max: nat,
    prev: u64,
    next: u64,
    name: Seq<char>,
    times: nat,
) -> (Map<u64, Seq<TransitionText>>, nat)
    decreases times,
{
    if times == 0 {
        s
    } else {
        let p = recorded_times(s, max, prev, next, name, (times - 1) as nat);
        recorded(p.0, p.1, max, prev, next, name)
    }
}

/// Every one of those recordings fits.
pub open spec fn times_fit(
    s: (Map<u64, Seq<TransitionText>>, nat),
    max: nat,
    prev: u64,
    next: u64,
    name: Seq<char>,
    times: nat,
) -> bool
    decreases times,
{
    times == 0 || (times_fit(s, max, prev, next, name, (times - 1) as nat) && record_fits(
        recorded_times(s, max, prev, next, name, (times - 1) as nat).0,
        prev,
        next,
    ))
}

/// The state after replaying the saved list `l` of transitions out of
/// `prev`: each as often as its count says, in list order.
pub open spec fn replayed_list(
    s: (Map<u64, Seq<TransitionText>>, nat),
    max: nat,
    prev: u64,
    l: Seq<TransitionText>,
) -> (Map<u64, Seq<TransitionText>>, nat)
    decreases l.len(),
{
    if l.len() == 0 {
        s
    } else {
        let p = replayed_list(s, max, prev, l.drop_last());
        recorded_times(p, max, prev, l.last().0, l.last().1, l.last().2 as nat)
    }
}

/// Every recording of that replay fits.
pub open spec fn list_fits(s: (Map<u64, Seq<TransitionText>>, nat), max: nat, prev: u64, l: Seq<TransitionText>) -> bool
    decreases l.len(),
{
    l.len() == 0 || (list_fits(s, max, prev, l.drop_last()) && times_fit(
        replayed_list(s, max, prev, l.drop_last()),
        max,
        prev,
        l.last().0,
        l.last().1,
        l.last().2 as nat,
    ))
}

/// The state after replaying the saved table `saved`, its lists taken in
/// the order of `keys`.
pub open spec fn replayed(
    s: (Map<u64, Seq<TransitionText>>, nat),
    max: nat,
    saved: Map<u64, Seq<TransitionText>>,
    keys: Seq<u64>,
) -> (Map<u64, Seq<TransitionText>>, nat)
    decreases keys.len(),
{
    if keys.len() == 0 {
        s
    } else {
        let p = replayed(s, max, saved, keys.drop_last());
        replayed_list(p, max, keys.last(), saved[keys.last()])
    }
}

/// Every recording of that replay fits.
pub open spec fn replay_fits(
    s: (Map<u64, Seq<TransitionText>>, nat),
    max: nat,
    saved: Map<u64, Seq<TransitionText>>,
    keys: Seq<u64>,
) -> bool
    decreases keys.len(),
{
    keys.len() == 0 || (replay_fits(s, max, saved, keys.drop_last()) && list_fits(
        replayed(s, max, saved, keys.drop_last()),
        max,
        keys.last(),
        saved[keys.last()],
    ))
}

proof fn lemma_times_fit_prefix(
    s: (Map<u64, Seq<TransitionText>>, nat),
    max: nat,
    prev: u64,
    next: u64,
    name: Seq<char>,
    times: nat,
    k: nat,
)
    requires
        times_fit(s, max, prev, next, name, times),
        k < times,
    ensures
        record_fits(recorded_times(s, max, prev, next, name, k).0, prev, next),
    decreases times,
{
    if k < times - 1 {
        lemma_times_fit_prefix(s, max, prev, next, name, (times - 1) as nat, k);
    }
}

proof fn lemma_list_fits_prefix(s: (Map<u64, Seq<TransitionText>>, nat), max: nat, prev: u64, l: Seq<TransitionText>, j: int)
    requires
        list_fits(s, max, prev, l),
        0 <= j < l.len(),
    ensures
        times_fit(replayed_list(s, max, prev, l.take(j)), max, prev, l[j].0, l[j].1, l[j].2 as nat),
    decreases l.len(),
{
    if j < l.len() - 1 {
        assert(l.drop_last().take(j) =~= l.take(j));
        lemma_list_fits_prefix(s, max, prev, l.drop_last(), j);
    } else {
        assert(l.drop_last() =~= l.take(j));
    }
}

proof fn lemma_replay_fits_prefix(
    s: (Map<u64, Seq<TransitionText>>, nat),
    max: nat,
    saved: Map<u64, Seq<TransitionText>>,
    keys: Seq<u64>,
    i: int,
)
    requires
        replay_fits(s, max, saved, keys),
        0 <= i < keys.len(),
    ensures
        list_fits(replayed(s, max, saved, keys.take(i)), max, keys[i], saved[keys[i]]),
    decreases keys.len(),
{
    if i < keys.len() - 1 {
        assert(keys.drop_last().take(i) =~= keys.take(i));
        lemma_replay_fits_prefix(s, max, saved, keys.drop_last(), i);
    } else {
        assert(keys.drop_last() =~= keys.take(i));
    }
}

impl MarkovPrefetcher {
    /// The table as text, with the count of distinct transitions.
    pub open spec fn text_state(&self) -> (Map<u64, Seq<TransitionText>>, nat) {
        (table_text(self.table()), self.spec_entry_count() as nat)
    }

    /// Record `prev → next`, stated over the table as text.
    fn record_text(&mut self, prev_ino: u64, next_ino: u64, next_name: &String)
        requires
            record_fits(old(self).text_state().0, prev_ino, next_ino),
        ensures
            final(self).spec_max_entries() == old(self).spec_max_entries(),
            final(self).text_state() == recorded(
                old(self).text_state().0,
                old(self).text_state().1,
                old(self).spec_max_entries() as nat,
                prev_ino,
                next_ino,
                next_name@,
            ),
    {
        let ghost pre = self.out_of(prev_ino);
        let ghost tab = old(self).text_state().0;
        proof {
            assert(out_text(tab, prev_ino) =~= list_text(pre));
            assert forall|j: int| 0 <= j < pre.len() && (#[trigger] pre[j]).0 == next_ino implies pre[j].2
                < u32::MAX by {
                assert(out_text(tab, prev_ino)[j] == transition_text(pre[j]));
            }
        }
        self.record_transition(prev_ino, next_ino, next_name.as_str());
        proof {
            let r = recorded(tab, old(self).spec_entry_count() as nat, old(self).spec_max_entries() as nat, prev_ino, next_ino, next_name@);
            let lt = list_text(pre);
            if old(self).spec_entry_count() >= old(self).spec_max_entries() {
                assert(self.text_state() == r);
            } else {
                let newt = table_text(self.table());
                if has_transition(pre, next_ino) {
                    let i = choose|i: int| #[trigger] first_to(pre, next_ino, i) && self.out_of(prev_ino) == pre.update(
                        i,
                        (pre[i].0, pre[i].1, (pre[i].2 + 1) as u32),
                    );
                    assert(first_at(lt, next_ino, i));
                    let ci = choose|i: int| first_at(lt, next_ino, i);
                    assert(ci == i) by {
                        if ci < i {
                            assert(lt[ci].0 == next_ino);
                        } else if ci > i {
                            assert(lt[i].0 == next_ino);
                        }
                    }
                    assert(list_text(self.out_of(prev_ino)) =~= lt.update(i, (lt[i].0, lt[i].1, (lt[i].2 + 1) as u32)));
                    assert(newt =~= r.0);
                } else {
                    assert(!exists|i: int| first_at(lt, next_ino, i)) by {
                        if exists|i: int| first_at(lt, next_ino, i) {
                            let i = choose|i: int| first_at(lt, next_ino, i);
                            assert(pre[i].0 == next_ino);
                        }
                    }
                    let post = self.out_of(prev_ino);
                    assert forall|k: int| 0 <= k < pre.len() implies post[k] == pre[k] by {
                        assert(post.take(pre.len() as int)[k] == post[k]);
                    }
                    assert(list_text(post) =~= lt.push((next_ino, next_name@, 1u32)));
                    assert(newt =~= r.0);
                }
            }
        }
    }

    /// Count again every transition of the saved table `saved`, each as
    /// often as its count says: the table's lists in the order its map walks
    /// them, each list in order.
    pub fn replay(&mut self, saved: &HashMap<u64, Vec<Transition>>)
        requires
            replay_fits(
                old(self).text_state(),
                old(self).spec_max_entries() as nat,
                table_text(saved@),
                walk_order(saved),
            ),
        ensures
            final(self).spec_max_entries() == old(self).spec_max_entries(),
            final(self).text_state() == replayed(
                old(self).text_state(),
                old(self).spec_max_entries() as nat,
                table_text(saved@),
                walk_order(saved),
            ),
    {
        let keys = keys_in_walk_order(saved);
        let ghost start = self.text_state();
        let ghost max = self.spec_max_entries() as nat;
        let ghost st = table_text(saved@);
        let mut i: usize = 0;
        proof {
            assert(keys@.take(0) =~= Seq::<u64>::empty());
        }
        while i < keys.len()
            invariant
                i <= keys@.len(),
                keys@ == walk_order(saved),
                keys@.to_set() == saved@.dom(),
                st == table_text(saved@),
                max == self.spec_max_entries() as nat,
                replay_fits(start, max, st, keys@),
                self.text_state() == replayed(start, max, st, keys@.take(i as int)),
            decreases keys@.len() - i,
        {
            let k = keys[i];
            proof {
                assert(keys@.to_set().contains(k));
                lemma_replay_fits_prefix(start, max, st, keys@, i as int);
                assert(keys@.take(i + 1).drop_last() =~= keys@.take(i as int));
            }
            let list = saved.get(&k).unwrap();
            let ghost l = st[k];
            let ghost before = self.text_state();
            assert(l =~= list_text(list@));
            let mut j: usize = 0;
            proof {
                assert(l.take(0) =~= Seq::<TransitionText>::empty());
            }
            while j < list.len()
                invariant
                    j <= list@.len(),
                    l == list_text(list@),
                    max == self.spec_max_entries() as nat,
                    list_fits(before, max, k, l),
                    self.text_state() == replayed_list(before, max, k, l.take(j as int)),
                decreases list@.len() - j,
            {
                let next = list[j].0;
                let name = &list[j].1;
                let times = list[j].2;
                proof {
                    lemma_list_fits_prefix(before, max, k, l, j as int);
                    assert(l.take(j + 1).drop_last() =~= l.take(j as int));
                    assert(l[j as int] == (next, name@, times));
                }
                let ghost mid = self.text_state();
                let mut c: u32 = 0;
                while c < times
                    invariant
                        c <= times,
                        max == self.spec_max_entries() as nat,
                        times_fit(mid, max, k, next, name@, times as nat),
                        self.text_state() == recorded_times(mid, max, k, next, name@, c as nat),
                    decreases times - c,
                {
                    proof {
                        lemma_times_fit_prefix(mid, max, k, next, name@, times as nat, c as nat);
                    }
                    self.record_text(k, next, name);
                    c = c + 1;
                }
                j = j + 1;
            }
            proof {
                assert(l.take(l.len() as int) =~= l);
            }
            i = i + 1;
        }
        proof {
            assert(keys@.take(keys@.len() as int) =~= keys@);
        }
    }
}

} // verus!

verus! {

/// A saved list that replays to itself: no next file twice, each counted
/// at least once.
pub open spec fn clean_list(l: Seq<TransitionText>) -> bool {
    &&& forall|i: int, j: int| 0 <= i < j < l.len() ==> (#[trigger] l[i]).0 != (#[trigger] l[j]).0
    &&& forall|i: int| 0 <= i < l.len() ==> (#[trigger] l[i]).2 >= 1
}

/// How many transitions the lists of `keys` hold.
pub open spec fn entry_total(saved: Map<u64, Seq<TransitionText>>, keys: Seq<u64>) -> nat
    decreases keys.len(),
{
    if keys.len() == 0 {
        0
    } else {
        entry_total(saved, keys.drop_last()) + saved[keys.last()].len()
    }
}

/// The lists of `keys` that hold something.
pub open spec fn nonempty_lists(saved: Map<u64, Seq<TransitionText>>, keys: Seq<u64>) -> Map<u64, Seq<TransitionText>> {
    Map::new(|k: u64| keys.contains(k) && saved.contains_key(k) && saved[k].len() > 0, |k: u64| saved[k])
}

proof fn lemma_times_fresh(
    tab: Map<u64, Seq<TransitionText>>,
    count: nat,
    max: nat,
    prev: u64,
    next: u64,
    name: Seq<char>,
    c: nat,
)
    requires
        1 <= c <= u32::MAX,
        count + 1 < max,
        forall|j: int| 0 <= j < out_text(tab, prev).len() ==> (#[trigger] out_text(tab, prev)[j]).0 != next,
    ensures
        recorded_times((tab, count), max, prev, next, name, c) == (
            tab.insert(prev, out_text(tab, prev).push((next, name, c as u32))),
            count + 1,
        ),
        times_fit((tab, count), max, prev, next, name, c),
    decreases c,
{
    let pre = out_text(tab, prev);
    if c == 1 {
        assert(!exists|i: int| first_at(pre, next, i));
        assert(recorded_times((tab, count), max, prev, next, name, 0) == (tab, count));
        assert(times_fit((tab, count), max, prev, next, name, 0));
        assert(record_fits(tab, prev, next));
    } else {
        lemma_times_fresh(tab, count, max, prev, next, name, (c - 1) as nat);
        let p = recorded_times((tab, count), max, prev, next, name, (c - 1) as nat);
        let l = pre.push((next, name, (c - 1) as u32));
        assert(out_text(p.0, prev) == l);
        let i = pre.len() as int;
        assert(first_at(l, next, i));
        let ci = choose|i: int| first_at(l, next, i);
        assert(ci == i) by {
            if ci < i {
                assert(l[ci] == pre[ci]);
            }
        }
        assert(l.update(i, (l[i].0, l[i].1, (l[i].2 + 1) as u32)) =~= pre.push((next, name, c as u32)));
        assert(p.0.insert(prev, pre.push((next, name, c as u32))) =~= tab.insert(prev, pre.push((next, name, c as u32))));
        assert forall|j: int| 0 <= j < out_text(p.0, prev).len() && (#[trigger] out_text(p.0, prev)[j]).0 == next
            implies out_text(p.0, prev)[j].2 < u32::MAX by {
            if j < i {
                assert(l[j] == pre[j]);
            }
        }
    }
}

proof fn lemma_list_fresh(tab: Map<u64, Seq<TransitionText>>, count: nat, max: nat, prev: u64, l: Seq<TransitionText>)
    requires
        !tab.contains_key(prev),
        clean_list(l),
        count + l.len() < max,
    ensures
        replayed_list((tab, count), max, prev, l) == (
            if l.len() > 0 {
                tab.insert(prev, l)
            } else {
                tab
            },
            count + l.len(),
        ),
        list_fits((tab, count), max, prev, l),
    decreases l.len(),
{
    if l.len() > 0 {
        let t = l.drop_last();
        assert(clean_list(t)) by {
            assert forall|i: int, j: int| 0 <= i < j < t.len() implies (#[trigger] t[i]).0 != (#[trigger] t[j]).0 by {
                assert(t[i] == l[i] && t[j] == l[j]);
            }
            assert forall|i: int| 0 <= i < t.len() implies (#[trigger] t[i]).2 >= 1 by {
                assert(t[i] == l[i]);
            }
        }
        lemma_list_fresh(tab, count, max, prev, t);
        let p = replayed_list((tab, count), max, prev, t);
        let last = l.last();
        assert(out_text(p.0, prev) == t);
        assert forall|j: int| 0 <= j < out_text(p.0, prev).len() implies (#[trigger] out_text(p.0, prev)[j]).0
            != last.0 by {
            assert(t[j] == l[j]);
            assert(l[l.len() - 1] == last);
        }
        assert(last.2 >= 1) by {
            assert(l[l.len() - 1] == last);
        }
        lemma_times_fresh(p.0, p.1, max, prev, last.0, last.1, last.2 as nat);
        assert(t.push((last.0, last.1, last.2 as nat as u32)) =~= l);
        if t.len() > 0 {
            assert(tab.insert(prev, t).insert(prev, l) =~= tab.insert(prev, l));
        }
    }
}

proof fn lemma_keys_fresh(saved: Map<u64, Seq<TransitionText>>, keys: Seq<u64>, max: nat)
    requires
        keys.no_duplicates(),
        forall|i: int| 0 <= i < keys.len() ==> saved.contains_key(#[trigger] keys[i]),
        forall|k: u64| saved.contains_key(k) ==> clean_list(#[trigger] saved[k]),
        entry_total(saved, keys) < max,
    ensures
        replay_fits((Map::empty(), 0), max, saved, keys),
        replayed((Map::empty(), 0), max, saved, keys) == (nonempty_lists(saved, keys), entry_total(saved, keys)),
    decreases keys.len(),
{
    if keys.len() > 0 {
        let t = keys.drop_last();
        let k = keys.last();
        assert(t.no_duplicates()) by {
            assert forall|i: int, j: int| 0 <= i < t.len() && 0 <= j < t.len() && i != j implies t[i] != t[j] by {
                assert(t[i] == keys[i] && t[j] == keys[j]);
            }
        }
        assert forall|i: int| 0 <= i < t.len() implies saved.contains_key(#[trigger] t[i]) by {
            assert(t[i] == keys[i]);
        }
        lemma_keys_fresh(saved, t, max);
        let p = replayed((Map::empty(), 0), max, saved, t);
        assert(saved.contains_key(k)) by {
            assert(keys[keys.len() - 1] == k);
        }
        assert(!t.contains(k)) by {
            if t.contains(k) {
                let j = choose|j: int| 0 <= j < t.len() && t[j] == k;
                assert(keys[j] == k && keys[keys.len() - 1] == k);
            }
        }
        assert(!p.0.contains_key(k));
        lemma_list_fresh(p.0, p.1, max, k, saved[k]);
        let r = replayed((Map::empty(), 0), max, saved, keys);
        assert(r.0 =~= nonempty_lists(saved, keys)) by {
            assert forall|x: u64| keys.contains(x) <==> (t.contains(x) || x == k) by {
                if keys.contains(x) {
                    let j = choose|j: int| 0 <= j < keys.len() && keys[j] == x;
                    if j < keys.len() - 1 {
                        assert(t[j] == x);
                    }
                }
                if t.contains(x) {
                    let j = choose|j: int| 0 <= j < t.len() && t[j] == x;
                    assert(keys[j] == x);
                }
                if x == k {
                    assert(keys[keys.len() - 1] == x);
                }
            }
        }
    } else {
        assert(nonempty_lists(saved, keys) =~= Map::<u64, Seq<TransitionText>>::empty());
    }
}

/// Replaying a saved table into a prefetcher that has learned nothing and
/// has room for more transitions than the table holds gives the table back,
/// lists left empty aside, whatever order the lists are taken in.
pub proof fn lemma_replay_restores(saved: Map<u64, Seq<TransitionText>>, keys: Seq<u64>, max: nat)
    requires
        keys.no_duplicates(),
        keys.to_set() == saved.dom(),
        forall|k: u64| saved.contains_key(k) ==> clean_list(#[trigger] saved[k]),
        entry_total(saved, keys) < max,
    ensures
        replay_fits((Map::empty(), 0), max, saved, keys),
        replayed((Map::empty(), 0), max, saved, keys).0 == nonempty_lists(saved, keys),
        replayed((Map::empty(), 0), max, saved, keys).1 == entry_total(saved, keys),
        forall|k: u64| #[trigger] saved.contains_key(k) && saved[k].len() > 0 ==> nonempty_lists(saved, keys)[k]
            == saved[k] && nonempty_lists(saved, keys).contains_key(k),
{
    assert forall|i: int| 0 <= i < keys.len() implies saved.contains_key(#[trigger] keys[i]) by {
        assert(keys.to_set().contains(keys[i]));
    }
    lemma_keys_fresh(saved, keys, max);
    assert forall|k: u64| #[trigger] saved.contains_key(k) && saved[k].len() > 0 implies nonempty_lists(
        saved,
        keys,
    ).contains_key(k) by {
        assert(keys.to_set().contains(k));
    }
}

} // verus!
