//! The registry of hosted subgraphs.
//!
//! The runtime manager keeps, for each subgraph it hosts, the subgraph's
//! runtime hosts in manifest order and the handle that cancels the
//! subgraph's watcher. Both are kept in one entry under the subgraph's id, so
//! that a subgraph is added, replaced or removed in one step. The manager
//! gives an entry that leaves the registry back to its caller: dropping it
//! closes the hosts' event sinks and signals the cancellation.
//!
//! The manager does not know what a host or a cancel handle is; the caller
//! chooses both types.

use vstd::prelude::*;

verus! {

/// What the manager keeps of one subgraph.
pub struct Hosted<H, C> {
    /// The subgraph's id.
    pub id: String,
    /// The subgraph's runtime hosts, one per data source, in manifest order.
    pub hosts: Vec<H>,
    /// The handle whose drop cancels the subgraph's watcher and walker.
    pub cancel: C,
}

/// The map from ids to entries that a list of entries stands for. Where two
/// entries share an id, the later one counts.
pub open spec fn as_map<H, C>(entries: Seq<Hosted<H, C>>) -> Map<Seq<char>, Hosted<H, C>>
    decreases entries.len(),
{
    if entries.len() == 0 {
        Map::empty()
    } else {
        as_map(entries.drop_last()).insert(entries.last().id@, entries.last())
    }
}

/// Whether no two entries share an id.
pub open spec fn distinct_ids<H, C>(entries: Seq<Hosted<H, C>>) -> bool {
    forall|i: int, j: int|
        0 <= i < j < entries.len() ==> (#[trigger] entries[i]).id@ != (#[trigger] entries[j]).id@
}

proof fn lemma_absent<H, C>(entries: Seq<Hosted<H, C>>, id: Seq<char>)
    requires
        forall|i: int| 0 <= i < entries.len() ==> (#[trigger] entries[i]).id@ != id,
    ensures
        !as_map(entries).contains_key(id),
    decreases entries.len(),
{
    if entries.len() > 0 {
        lemma_absent(entries.drop_last(), id);
    }
}

proof fn lemma_present<H, C>(entries: Seq<Hosted<H, C>>, at: int)
    requires
        distinct_ids(entries),
        0 <= at < entries.len(),
    ensures
        as_map(entries).contains_key(entries[at].id@),
        as_map(entries)[entries[at].id@] == entries[at],
    decreases entries.len(),
{
    if at < entries.len() - 1 {
        assert(distinct_ids(entries.drop_last()));
        lemma_present(entries.drop_last(), at);
        assert(entries[at].id@ != entries[entries.len() - 1].id@);
    }
}

proof fn lemma_removed<H, C>(entries: Seq<Hosted<H, C>>, at: int)
    requires
        distinct_ids(entries),
        0 <= at < entries.len(),
    ensures
        as_map(entries.remove(at)) == as_map(entries).remove(entries[at].id@),
        distinct_ids(entries.remove(at)),
    decreases entries.len(),
{
    let rest = entries.remove(at);
    assert forall|i: int, j: int| 0 <= i < j < rest.len() implies (#[trigger] rest[i]).id@ != (
    #[trigger] rest[j]).id@ by {
        let from_i = if i < at {
            i
        } else {
            i + 1
        };
        let from_j = if j < at {
            j
        } else {
            j + 1
        };
        assert(rest[i] == entries[from_i]);
        assert(rest[j] == entries[from_j]);
    }
    if at == entries.len() - 1 {
        assert(rest =~= entries.drop_last());
        assert forall|i: int| 0 <= i < rest.len() implies (#[trigger] rest[i]).id@
            != entries[at].id@ by {
            assert(rest[i] == entries[i]);
        }
        lemma_absent(rest, entries[at].id@);
        assert(as_map(rest) =~= as_map(entries).remove(entries[at].id@));
    } else {
        let shorter = entries.drop_last();
        assert(distinct_ids(shorter));
        lemma_removed(shorter, at);
        assert(rest.drop_last() =~= shorter.remove(at));
        assert(rest.last() == entries.last());
        assert(entries[at].id@ != entries[entries.len() - 1].id@);
        assert(shorter[at] == entries[at]);
        assert(as_map(rest) =~= as_map(entries).remove(entries[at].id@));
    }
}

proof fn lemma_counted<H, C>(entries: Seq<Hosted<H, C>>)
    requires
        distinct_ids(entries),
    ensures
        as_map(entries).dom().finite(),
        as_map(entries).dom().len() == entries.len(),
    decreases entries.len(),
{
    if entries.len() > 0 {
        let shorter = entries.drop_last();
        assert(distinct_ids(shorter));
        lemma_counted(shorter);
        assert forall|i: int| 0 <= i < shorter.len() implies (#[trigger] shorter[i]).id@
            != entries.last().id@ by {
            assert(shorter[i] == entries[i]);
        }
        lemma_absent(shorter, entries.last().id@);
        assert(as_map(entries).dom() =~= as_map(shorter).dom().insert(entries.last().id@));
    }
}

/// The subgraphs that are hosted, each with its hosts and its cancel
/// handle.
pub struct RuntimeManager<H, C> {
    subgraphs: Vec<Hosted<H, C>>,
}

impl<H, C> View for RuntimeManager<H, C> {
    type V = Map<Seq<char>, Hosted<H, C>>;

    closed spec fn view(&self) -> Map<Seq<char>, Hosted<H, C>> {
        as_map(self.subgraphs@)
    }
}

impl<H, C> RuntimeManager<H, C> {
    /// What every manager made by [`RuntimeManager::new`] and changed
    /// through its methods satisfies: no subgraph is entered twice.
    pub closed spec fn wf(&self) -> bool {
        distinct_ids(self.subgraphs@)
    }

    /// Creates a new runtime manager, which hosts nothing yet.
    pub fn new() -> (manager: RuntimeManager<H, C>)
        ensures
            manager.wf(),
            manager@ == Map::<Seq<char>, Hosted<H, C>>::empty(),
    {
        RuntimeManager { subgraphs: Vec::new() }
    }

    fn position(&self, id: &String) -> (at: Option<usize>)
        requires
            self.wf(),
        ensures
            match at {
                Some(at) => at < self.subgraphs@.len() && self.subgraphs@[at as int].id@ == id@
                    && self@.contains_key(id@) && self@[id@] == self.subgraphs@[at as int],
                None => !self@.contains_key(id@),
            },
    {
        let mut i: usize = 0;
        while i < self.subgraphs.len()
            invariant
                self.wf(),
                i <= self.subgraphs.len(),
                forall|j: int| 0 <= j < i ==> (#[trigger] self.subgraphs@[j]).id@ != id@,
            decreases self.subgraphs.len() - i,
        {
            if self.subgraphs[i].id == *id {
                proof {
                    lemma_present(self.subgraphs@, i as int);
                }
                return Some(i);
            }
            i += 1;
        }
        proof {
            lemma_absent(self.subgraphs@, id@);
        }
        None
    }

    /// Whether the subgraph is hosted.
    pub fn contains(&self, id: &String) -> (hosted: bool)
        requires
            self.wf(),
        ensures
            hosted == self@.contains_key(id@),
    {
        self.position(id).is_some()
    }

    /// The hosts of the subgraph, in manifest order, if it is hosted.
    pub fn hosts(&self, id: &String) -> (hosts: Option<&Vec<H>>)
        requires
            self.wf(),
        ensures
            match hosts {
                Some(hosts) => self@.contains_key(id@) && *hosts == self@[id@].hosts,
                None => !self@.contains_key(id@),
            },
    {
        match self.position(id) {
            Some(at) => Some(&self.subgraphs[at].hosts),
            None => None,
        }
    }

    /// The number of hosts of the subgraph; zero where it is not hosted.
    pub fn host_count(&self, id: &String) -> (count: usize)
        requires
            self.wf(),
        ensures
            self@.contains_key(id@) ==> count == self@[id@].hosts@.len(),
            !self@.contains_key(id@) ==> count == 0,
    {
        match self.position(id) {
            Some(at) => self.subgraphs[at].hosts.len(),
            None => 0,
        }
    }

    /// Takes a subgraph in: enters its hosts and its cancel handle under its
    /// id. Where the subgraph is hosted already, the new entry takes the
    /// place of the old one, which is handed back; the subgraph never has
    /// two entries.
    pub fn accept_added(&mut self, id: String, hosts: Vec<H>, cancel: C) -> (replaced: Option<
        Hosted<H, C>,
    >)
        requires
            old(self).wf(),
        ensures
            final(self).wf(),
            final(self)@ == old(self)@.insert(id@, Hosted { id, hosts, cancel }),
            replaced == if old(self)@.contains_key(id@) {
                Some(old(self)@[id@])
            } else {
                None::<Hosted<H, C>>
            },
    {
        let replaced = self.accept_removed(&id);
        let ghost between = self.subgraphs@;
        let entry = Hosted { id, hosts, cancel };
        self.subgraphs.push(entry);
        proof {
            assert(self.subgraphs@.drop_last() =~= between);
            assert forall|i: int, j: int| 0 <= i < j < self.subgraphs@.len() implies (
            #[trigger] self.subgraphs@[i]).id@ != (#[trigger] self.subgraphs@[j]).id@ by {
                if j == self.subgraphs@.len() - 1 {
                    assert(between[i] == self.subgraphs@[i]);
                    if between[i].id@ == id@ {
                        lemma_present(between, i);
                    }
                } else {
                    assert(between[i] == self.subgraphs@[i]);
                    assert(between[j] == self.subgraphs@[j]);
                }
            }
            assert(self@ =~= old(self)@.insert(id@, entry));
        }
        replaced
    }

    /// Lets a subgraph go: takes its entry out and hands it back. Nothing
    /// changes, and nothing is handed back, where the subgraph is not
    /// hosted.
    pub fn accept_removed(&mut self, id: &String) -> (removed: Option<Hosted<H, C>>)
        requires
            old(self).wf(),
        ensures
            final(self).wf(),
            final(self)@ == old(self)@.remove(id@),
            removed == if old(self)@.contains_key(id@) {
                Some(old(self)@[id@])
            } else {
                None::<Hosted<H, C>>
            },
    {
        match self.position(id) {
            Some(at) => {
                proof {
                    lemma_removed(self.subgraphs@, at as int);
                }
                Some(self.subgraphs.remove(at))
            },
            None => {
                assert(self@ =~= old(self)@.remove(id@));
                None
            },
        }
    }

    /// The number of hosted subgraphs.
    pub fn len(&self) -> (count: usize)
        requires
            self.wf(),
        ensures
            self@.dom().finite(),
            count == self@.dom().len(),
    {
        proof {
            lemma_counted(self.subgraphs@);
        }
        self.subgraphs.len()
    }
}

/// After a subgraph is removed it is not hosted, and no other subgraph is
/// touched.
pub proof fn lemma_removed_is_gone<H, C>(
    before: Map<Seq<char>, Hosted<H, C>>,
    id: Seq<char>,
    other: Seq<char>,
)
    requires
        other != id,
    ensures
        !before.remove(id).contains_key(id),
        before.remove(id).contains_key(other) == before.contains_key(other),
        before.contains_key(other) ==> before.remove(id)[other] == before[other],
{
}

/// Adding a subgraph again replaces it: afterwards the subgraph has the
/// new hosts and the new cancel handle and nothing of the old entry, and no
/// other subgraph is touched.
pub proof fn lemma_added_replaces<H, C>(
    before: Map<Seq<char>, Hosted<H, C>>,
    entry: Hosted<H, C>,
    other: Seq<char>,
)
    requires
        other != entry.id@,
    ensures
        before.insert(entry.id@, entry).contains_key(entry.id@),
        before.insert(entry.id@, entry)[entry.id@] == entry,
        before.insert(entry.id@, entry).contains_key(other) == before.contains_key(other),
        before.contains_key(other) ==> before.insert(entry.id@, entry)[other] == before[other],
{
}

} // verus!
