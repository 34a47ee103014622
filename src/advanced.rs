use crate::basic::{keys_distinct, Namespaces};
use vstd::prelude::*;

verus! {

/// Why a run over a registry cannot start, or a single target cannot be entered.
#[derive(Debug, Clone, Copy, PartialEq, Eq, Structural)]
pub enum SpawnError {
    /// The registry holds no `origin` entry to come back to.
    NoOrigin,
    /// No candidate path of the target namespace could be opened.
    Unavailable,
}

/// The positions of the keys other than `origin`, in registry order: the
/// namespaces that a run over the registry visits.
pub open spec fn target_positions(keys: Seq<Seq<char>>) -> Seq<int>
    decreases keys.len(),
{
    if keys.len() == 0 {
        seq![]
    } else if keys.last() == "origin"@ {
        target_positions(keys.drop_last())
    } else {
        target_positions(keys.drop_last()).push(keys.len() - 1)
    }
}

/// The keys that a run has results for, once the targets visited so far could
/// (`true`) or could not (`false`) be opened, as `opened` says.
pub open spec fn accessed_keys(keys: Seq<Seq<char>>, targets: Seq<int>, opened: Seq<bool>) -> Seq<
    Seq<char>,
>
    decreases opened.len(),
{
    if opened.len() == 0 {
        seq![]
    } else if opened.last() {
        accessed_keys(keys, targets, opened.drop_last()).push(keys[targets[opened.len() - 1]])
    } else {
        accessed_keys(keys, targets, opened.drop_last())
    }
}

/// The number of `true` among `opened`.
pub open spec fn count_opened(opened: Seq<bool>) -> nat
    decreases opened.len(),
{
    if opened.len() == 0 {
        0
    } else {
        count_opened(opened.drop_last()) + if opened.last() {
            1nat
        } else {
            0nat
        }
    }
}

/// The decisions of a worker that runs a function inside every namespace of a
/// registry but `origin`: which namespace comes next, and the result recorded
/// under each key whose namespace could be entered.
pub struct SpawnAll<T> {
    origin: usize,
    targets: Vec<usize>,
    next: usize,
    keys: Vec<String>,
    values: Vec<T>,
    registry: Ghost<Seq<Seq<char>>>,
    opened: Ghost<Seq<bool>>,
}

impl<T> SpawnAll<T> {
    /// The keys of the registry the run was started on.
    pub closed spec fn registry(&self) -> Seq<Seq<char>> {
        self.registry@
    }

    /// Whether each target visited so far could be opened.
    pub closed spec fn outcomes(&self) -> Seq<bool> {
        self.opened@
    }

    /// The keys recorded so far.
    pub closed spec fn result_keys(&self) -> Seq<Seq<char>> {
        self.keys@.map_values(|k: String| k@)
    }

    /// The results recorded so far, at the positions of their keys.
    pub closed spec fn result_values(&self) -> Seq<T> {
        self.values@
    }

    /// The position of `origin` in the registry.
    pub closed spec fn origin_position(&self) -> int {
        self.origin as int
    }

    pub closed spec fn wf(&self) -> bool {
        &&& self.targets@.map_values(|t: usize| t as int) == target_positions(self.registry@)
        &&& self.next == self.opened@.len()
        &&& self.next <= self.targets@.len()
        &&& self.origin < self.registry@.len()
        &&& self.registry@[self.origin as int] == "origin"@
        &&& self.result_keys() == accessed_keys(
            self.registry@,
            target_positions(self.registry@),
            self.opened@,
        )
        &&& self.values@.len() == self.keys@.len()
    }

    /// Whether every target has been visited.
    pub open spec fn done(&self) -> bool {
        self.outcomes().len() == target_positions(self.registry()).len()
    }
}

proof fn lemma_target_positions_bounds(keys: Seq<Seq<char>>)
    ensures
        forall|j: int|
            0 <= j < target_positions(keys).len() ==> 0 <= #[trigger] target_positions(keys)[j]
                < keys.len() && keys[target_positions(keys)[j]] != "origin"@,
        target_positions(keys).len() <= keys.len(),
        forall|i: int, j: int|
            0 <= i < j < target_positions(keys).len() ==> target_positions(keys)[i]
                < target_positions(keys)[j],
    decreases keys.len(),
{
    if keys.len() > 0 {
        lemma_target_positions_bounds(keys.drop_last());
    }
}

impl<T> SpawnAll<T> {
    /// Starts a run over `ns`; fails where `ns` has no `origin` entry.
    pub fn new(ns: &Namespaces) -> (r: Result<Self, SpawnError>)
        requires
            ns.wf(),
        ensures
            match r {
                Ok(run) => {
                    &&& ns@.keys.contains("origin"@)
                    &&& run.wf()
                    &&& run.registry() == ns@.keys
                    &&& run.outcomes() == Seq::<bool>::empty()
                    &&& run.result_keys() == Seq::<Seq<char>>::empty()
                    &&& run.result_values() == Seq::<T>::empty()
                    &&& 0 <= run.origin_position() < ns@.keys.len()
                    &&& ns@.keys[run.origin_position()] == "origin"@
                },
                Err(e) => e == SpawnError::NoOrigin && !ns@.keys.contains("origin"@),
            },
    {
        let origin_key = String::from_str("origin");
        let origin = match ns.find(&origin_key) {
            Some(o) => o,
            None => return Err(SpawnError::NoOrigin),
        };
        let ghost keys = ns@.keys;
        let mut targets: Vec<usize> = Vec::new();
        let mut i: usize = 0;
        assert(keys.take(0).len() == 0);
        assert(targets@.map_values(|t: usize| t as int) =~= target_positions(keys.take(0)));
        while i < ns.len()
            invariant
                ns.wf(),
                keys == ns@.keys,
                i <= keys.len(),
                origin_key@ == "origin"@,
                targets@.map_values(|t: usize| t as int) == target_positions(keys.take(i as int)),
            decreases keys.len() - i,
        {
            let ghost before = targets@;
            assert(keys.take(i + 1).drop_last() =~= keys.take(i as int));
            assert(keys.take(i + 1).last() == keys[i as int]);
            if *ns.key(i) != origin_key {
                targets.push(i);
                assert(targets@.map_values(|t: usize| t as int) =~= before.map_values(
                    |t: usize| t as int,
                ).push(i as int));
            }
            i += 1;
        }
        assert(keys.take(keys.len() as int) =~= keys);
        let run = SpawnAll {
            origin,
            targets,
            next: 0,
            keys: Vec::new(),
            values: Vec::new(),
            registry: Ghost(keys),
            opened: Ghost(Seq::empty()),
        };
        assert(run.result_keys() =~= Seq::<Seq<char>>::empty());
        Ok(run)
    }

    /// The position in the registry of `origin`, the namespace the worker
    /// returns to after each target.
    pub fn origin(&self) -> (r: usize)
        ensures
            r == self.origin_position(),
    {
        self.origin
    }

    /// The position in the registry of the next namespace to visit, or none
    /// once every target has been visited.
    pub fn next_target(&self) -> (r: Option<usize>)
        requires
            self.wf(),
        ensures
            match r {
                Some(p) => !self.done() && p == target_positions(self.registry())[self.outcomes().len() as int],
                None => self.done(),
            },
    {
        proof {
            assert(self.targets@.map_values(|t: usize| t as int).len() == self.targets@.len());
        }
        if self.next < self.targets.len() {
            proof {
                assert(self.targets@.map_values(|t: usize| t as int)[self.next as int] == self.targets@[self.next as int] as int);
            }
            Some(self.targets[self.next])
        } else {
            None
        }
    }

    /// The next target could not be opened: it is passed over and gets no result.
    pub fn skip(&mut self)
        requires
            old(self).wf(),
            !old(self).done(),
        ensures
            final(self).wf(),
            final(self).registry() == old(self).registry(),
            final(self).origin_position() == old(self).origin_position(),
            final(self).outcomes() == old(self).outcomes().push(false),
            final(self).result_keys() == old(self).result_keys(),
            final(self).result_values() == old(self).result_values(),
    {
        proof {
            assert(self.targets@.map_values(|t: usize| t as int).len() == self.targets@.len());
            assert(self.next < self.targets@.len());
        }
        let n = self.targets.len();
        assert(self.next < n);
        self.next = self.next + 1;
        let ghost o = self.opened@.push(false);
        self.opened = Ghost(o);
        assert(o.drop_last() =~= old(self).opened@);
    }

    /// The function ran inside the next target and gave `value`: it is
    /// recorded under that target's key.
    pub fn record(&mut self, ns: &Namespaces, value: T)
        requires
            old(self).wf(),
            !old(self).done(),
            ns.wf(),
            ns@.keys == old(self).registry(),
        ensures
            final(self).wf(),
            final(self).registry() == old(self).registry(),
            final(self).origin_position() == old(self).origin_position(),
            final(self).outcomes() == old(self).outcomes().push(true),
            final(self).result_keys() == old(self).result_keys().push(
                old(self).registry()[target_positions(old(self).registry())[old(self).outcomes().len() as int]],
            ),
            final(self).result_values() == old(self).result_values().push(value),
    {
        proof {
            lemma_target_positions_bounds(self.registry@);
            assert(self.targets@.map_values(|t: usize| t as int).len() == self.targets@.len());
            assert(self.next < self.targets@.len());
            assert(self.targets@.map_values(|t: usize| t as int)[self.next as int] == self.targets@[self.next as int] as int);
        }
        let p = self.targets[self.next];
        let key = ns.key(p).clone();
        self.keys.push(key);
        self.values.push(value);
        let n = self.targets.len();
        assert(self.next < n);
        self.next = self.next + 1;
        let ghost o = self.opened@.push(true);
        self.opened = Ghost(o);
        assert(o.drop_last() =~= old(self).opened@);
        assert(self.result_keys() =~= old(self).result_keys().push(self.registry@[p as int]));
    }

    /// The keys and results recorded, at matching positions.
    pub fn finish(self) -> (r: (Vec<String>, Vec<T>))
        requires
            self.wf(),
        ensures
            r.0@.map_values(|k: String| k@) == self.result_keys(),
            r.1@ == self.result_values(),
            r.0@.len() == r.1@.len(),
    {
        (self.keys, self.values)
    }
}


/// A run over a registry with unique keys gives one result per target that
/// could be opened and none else: every key at most once, never `origin`, a
/// target's key present exactly when it was opened, and as many keys as
/// targets opened.
pub proof fn lemma_spawn_all_results(keys: Seq<Seq<char>>, opened: Seq<bool>)
    requires
        keys_distinct(keys),
        opened.len() <= target_positions(keys).len(),
    ensures
        !accessed_keys(keys, target_positions(keys), opened).contains("origin"@),
        keys_distinct(accessed_keys(keys, target_positions(keys), opened)),
        accessed_keys(keys, target_positions(keys), opened).len() == count_opened(opened),
        forall|j: int|
            0 <= j < opened.len() ==> (accessed_keys(keys, target_positions(keys), opened).contains(
                keys[#[trigger] target_positions(keys)[j]],
            ) <==> opened[j]),
    decreases opened.len(),
{
    let tp = target_positions(keys);
    lemma_target_positions_bounds(keys);
    if opened.len() > 0 {
        let d = opened.drop_last();
        lemma_spawn_all_results(keys, d);
        let a0 = accessed_keys(keys, tp, d);
        let a = accessed_keys(keys, tp, opened);
        let n = opened.len() - 1;
        let kn = keys[tp[n]];
        assert(opened.last() == opened[n]);
        // the key of the last target is no earlier target's key
        assert(!a0.contains(kn)) by {
            if a0.contains(kn) {
                let m = choose|m: int| 0 <= m < a0.len() && a0[m] == kn;
                lemma_accessed_keys_from_targets(keys, d, m);
                let j = choose|j: int| 0 <= j < d.len() && a0[m] == keys[tp[j]];
                assert(tp[j] < tp[n]);
            }
        }
        assert forall|j: int| 0 <= j < opened.len() implies (a.contains(
            keys[#[trigger] tp[j]],
        ) <==> opened[j]) by {
            if j < n {
                assert(d[j] == opened[j]);
                assert(keys[tp[j]] != kn) by {
                    assert(tp[j] < tp[n]);
                }
                if a.contains(keys[tp[j]]) && !a0.contains(keys[tp[j]]) {
                    let m = choose|m: int| 0 <= m < a.len() && a[m] == keys[tp[j]];
                    if opened.last() {
                        assert(m < a0.len() ==> a[m] == a0[m]);
                    }
                }
                if a0.contains(keys[tp[j]]) {
                    let m = choose|m: int| 0 <= m < a0.len() && a0[m] == keys[tp[j]];
                    if opened.last() {
                        assert(a[m] == a0[m]);
                    }
                }
            } else {
                if opened.last() {
                    assert(a[a.len() - 1] == kn);
                }
            }
        }
        if opened.last() {
            assert(kn != "origin"@);
            assert(!a.contains("origin"@)) by {
                if a.contains("origin"@) {
                    let m = choose|m: int| 0 <= m < a.len() && a[m] == "origin"@;
                    if m < a0.len() {
                        assert(a0[m] == "origin"@);
                    }
                }
            }
        }
    }
}

proof fn lemma_accessed_keys_from_targets(keys: Seq<Seq<char>>, opened: Seq<bool>, m: int)
    requires
        opened.len() <= target_positions(keys).len(),
        0 <= m < accessed_keys(keys, target_positions(keys), opened).len(),
    ensures
        exists|j: int|
            0 <= j < opened.len() && accessed_keys(keys, target_positions(keys), opened)[m]
                == keys[target_positions(keys)[j]],
    decreases opened.len(),
{
    let a0 = accessed_keys(keys, target_positions(keys), opened.drop_last());
    if m < a0.len() {
        lemma_accessed_keys_from_targets(keys, opened.drop_last(), m);
        let j = choose|j: int|
            0 <= j < opened.len() - 1 && a0[m] == keys[target_positions(keys)[j]];
        assert(accessed_keys(keys, target_positions(keys), opened)[m] == a0[m]);
    } else {
        assert(accessed_keys(keys, target_positions(keys), opened)[m] == keys[target_positions(
            keys,
        )[opened.len() - 1]]);
    }
}

/// The keys a run gives depend on the registry and on which targets could be
/// opened alone: two runs over one registry in which the same targets open
/// give the same keys, in the same order.
pub proof fn lemma_spawn_all_repeatable(keys: Seq<Seq<char>>, first: Seq<bool>, second: Seq<bool>)
    requires
        first == second,
    ensures
        accessed_keys(keys, target_positions(keys), first) == accessed_keys(
            keys,
            target_positions(keys),
            second,
        ),
{
}

} // verus!
