use vstd::prelude::*;

verus! {

/// The category of kernel namespace that a handle belongs to.
#[derive(Debug, Clone, Copy, PartialEq, Eq, Structural)]
pub enum NsType {
    CGROUP,
    PID,
    USER,
    UTS,
    IPC,
    MNT,
    NET,
    UNK,
}

/// The kind named by a namespace file name such as `mnt`; any other name is `UNK`.
pub open spec fn kind_of(name: Seq<char>) -> NsType {
    if name == "cgroup"@ {
        NsType::CGROUP
    } else if name == "pid"@ {
        NsType::PID
    } else if name == "user"@ {
        NsType::USER
    } else if name == "uts"@ {
        NsType::UTS
    } else if name == "ipc"@ {
        NsType::IPC
    } else if name == "mnt"@ {
        NsType::MNT
    } else if name == "net"@ {
        NsType::NET
    } else {
        NsType::UNK
    }
}

/// The lower-case name of a kind, as it appears under `/proc/<pid>/ns/`.
pub open spec fn kind_name(k: NsType) -> Seq<char> {
    match k {
        NsType::CGROUP => "cgroup"@,
        NsType::PID => "pid"@,
        NsType::USER => "user"@,
        NsType::UTS => "uts"@,
        NsType::IPC => "ipc"@,
        NsType::MNT => "mnt"@,
        NsType::NET => "net"@,
        NsType::UNK => "unk"@,
    }
}

/// Reading back the name of a kind gives the kind again.
pub proof fn lemma_kind_name_round_trip(k: NsType)
    ensures
        kind_of(kind_name(k)) == k,
{
    reveal_strlit("cgroup");
    reveal_strlit("pid");
    reveal_strlit("user");
    reveal_strlit("uts");
    reveal_strlit("ipc");
    reveal_strlit("mnt");
    reveal_strlit("net");
    reveal_strlit("unk");
    assert("cgroup"@.len() == 6 && "cgroup"@[0] == 'c' && "cgroup"@[1] == 'g');
    assert("pid"@.len() == 3 && "pid"@[0] == 'p' && "pid"@[1] == 'i');
    assert("user"@.len() == 4 && "user"@[0] == 'u' && "user"@[1] == 's');
    assert("uts"@.len() == 3 && "uts"@[0] == 'u' && "uts"@[1] == 't');
    assert("ipc"@.len() == 3 && "ipc"@[0] == 'i' && "ipc"@[1] == 'p');
    assert("mnt"@.len() == 3 && "mnt"@[0] == 'm' && "mnt"@[1] == 'n');
    assert("net"@.len() == 3 && "net"@[0] == 'n' && "net"@[1] == 'e');
    assert("unk"@.len() == 3 && "unk"@[0] == 'u' && "unk"@[1] == 'n');
}

impl NsType {
    /// The file name of this kind under `/proc/<pid>/ns/`.
    pub fn name(&self) -> (r: String)
        ensures
            r@ == kind_name(*self),
    {
        match self {
            NsType::CGROUP => String::from_str("cgroup"),
            NsType::PID => String::from_str("pid"),
            NsType::USER => String::from_str("user"),
            NsType::UTS => String::from_str("uts"),
            NsType::IPC => String::from_str("ipc"),
            NsType::MNT => String::from_str("mnt"),
            NsType::NET => String::from_str("net"),
            NsType::UNK => String::from_str("unk"),
        }
    }

    /// The kind named by `name`.
    pub fn from_name(name: &String) -> (r: NsType)
        ensures
            r == kind_of(name@),
    {
        if *name == String::from_str("cgroup") {
            NsType::CGROUP
        } else if *name == String::from_str("pid") {
            NsType::PID
        } else if *name == String::from_str("user") {
            NsType::USER
        } else if *name == String::from_str("uts") {
            NsType::UTS
        } else if *name == String::from_str("ipc") {
            NsType::IPC
        } else if *name == String::from_str("mnt") {
            NsType::MNT
        } else if *name == String::from_str("net") {
            NsType::NET
        } else {
            NsType::UNK
        }
    }
}

/// What a handle is: its kind and the paths through which it can be opened.
pub struct NamespaceView {
    pub kind: NsType,
    pub paths: Seq<Seq<char>>,
}

/// One kernel namespace instance, with every known path that refers to it.
#[derive(Debug, Clone)]
pub struct Namespace {
    genre: NsType,
    procs: Vec<String>,
}

impl View for Namespace {
    type V = NamespaceView;

    closed spec fn view(&self) -> NamespaceView {
        NamespaceView { kind: self.genre, paths: self.procs@.map_values(|p: String| p@) }
    }
}

impl Namespace {
    /// A handle has at least one candidate path.
    pub open spec fn wf(&self) -> bool {
        self@.paths.len() > 0
    }

    /// A handle of the kind named by `genre`, reached through `proc` alone.
    pub fn new(genre: String, proc: String) -> (r: Self)
        ensures
            r@.kind == kind_of(genre@),
            r@.paths == seq![proc@],
            r.wf(),
    {
        let genre = NsType::from_name(&genre);
        let procs: Vec<String> = vec![proc];
        let r = Namespace { genre, procs };
        assert(r@.paths =~= seq![proc@]);
        r
    }

    /// The kind of this namespace.
    pub fn kind(&self) -> (r: NsType)
        ensures
            r == self@.kind,
    {
        self.genre
    }

    /// The number of candidate paths.
    pub fn candidate_count(&self) -> (r: usize)
        ensures
            r == self@.paths.len(),
    {
        self.procs.len()
    }

    /// The candidate path at position `i`, in the order they were found.
    pub fn candidate(&self, i: usize) -> (r: &String)
        requires
            i < self@.paths.len(),
        ensures
            r@ == self@.paths[i as int],
    {
        &self.procs[i]
    }

    /// Adds one more path through which this namespace can be reached.
    fn push_path(&mut self, path: String)
        ensures
            final(self)@.kind == old(self)@.kind,
            final(self)@.paths == old(self)@.paths.push(path@),
    {
        self.procs.push(path);
        assert(self@.paths =~= old(self)@.paths.push(path@));
    }
}


/// The leftmost-first match of the regular expression `pattern` in `hay`, or
/// `None` where there is none or `pattern` does not compile.
pub uninterp spec fn first_match_of(pattern: Seq<char>, hay: Seq<char>) -> Option<Seq<char>>;

/// Relies on `regex::Regex::new` to compile `pattern` and on `regex::Regex::find`
/// for its leftmost-first match in `hay`, whose text is a piece of `hay`.
#[verifier::external_body]
fn find_first_match(pattern: &str, hay: &str) -> (r: Option<String>)
    ensures
        match r {
            Some(m) => first_match_of(pattern@, hay@) == Some(m@) && exists|i: int|
                0 <= i && i + m@.len() <= hay@.len() && #[trigger] hay@.subrange(i, i + m@.len())
                    == m@,
            None => first_match_of(pattern@, hay@) is None,
        },
{
    regex::Regex::new(pattern).ok()?.find(hay).map(|m| m.as_str().to_owned())
}

/// The identity of a namespace in the target of its `/proc/<pid>/ns/<kind>`
/// link (such as `mnt:[4026531841]`): the first run of decimal digits that
/// does not start with `0`.
pub open spec fn namespace_id(link: Seq<char>) -> Option<Seq<char>> {
    first_match_of("[1-9]\\d*"@, link)
}

/// The identity embedded in a namespace link target, if any.
pub fn namespace_id_of(link: &String) -> (r: Option<String>)
    ensures
        match r {
            Some(k) => namespace_id(link@) == Some(k@),
            None => namespace_id(link@) is None,
        },
{
    find_first_match("[1-9]\\d*", link.as_str())
}

/// One namespace path found during a scan: the key it is grouped under (none
/// where it could not be read), its kind, and the path itself.
pub struct EntryView {
    pub key: Option<Seq<char>>,
    pub kind: NsType,
    pub path: Seq<char>,
}

/// A registry as a value: its keys in order of first appearance, and the handle
/// under each key at the same position.
pub struct RegistryView {
    pub keys: Seq<Seq<char>>,
    pub handles: Seq<NamespaceView>,
}

/// The position of `key` among `keys`, or -1 where it is absent.
pub open spec fn position_of(keys: Seq<Seq<char>>, key: Seq<char>) -> int {
    if keys.contains(key) {
        choose|i: int| 0 <= i < keys.len() && keys[i] == key
    } else {
        -1
    }
}

/// No key occurs twice.
pub open spec fn keys_distinct(keys: Seq<Seq<char>>) -> bool {
    forall|i: int, j: int| 0 <= i < j < keys.len() ==> keys[i] != keys[j]
}

/// `path` recorded under `key`: appended to the handle already there, or the
/// first path of a new handle of kind `kind`.
pub open spec fn add_path(r: RegistryView, key: Seq<char>, kind: NsType, path: Seq<char>) -> RegistryView {
    let p = position_of(r.keys, key);
    if p >= 0 {
        RegistryView {
            keys: r.keys,
            handles: r.handles.update(
                p,
                NamespaceView { kind: r.handles[p].kind, paths: r.handles[p].paths.push(path) },
            ),
        }
    } else {
        RegistryView {
            keys: r.keys.push(key),
            handles: r.handles.push(NamespaceView { kind, paths: seq![path] }),
        }
    }
}

/// The registry that a scan finding `es`, in this order, builds: entries
/// without a key are left out, the others grouped by key.
pub open spec fn grouped(es: Seq<EntryView>) -> RegistryView
    decreases es.len(),
{
    if es.len() == 0 {
        RegistryView { keys: seq![], handles: seq![] }
    } else {
        let r = grouped(es.drop_last());
        match es.last().key {
            Some(k) => add_path(r, k, es.last().kind, es.last().path),
            None => r,
        }
    }
}

/// The namespaces found by a scan, keyed by namespace identity.
#[derive(Debug)]
pub struct Namespaces {
    keys: Vec<String>,
    handles: Vec<Namespace>,
}

impl View for Namespaces {
    type V = RegistryView;

    closed spec fn view(&self) -> RegistryView {
        RegistryView {
            keys: self.keys@.map_values(|k: String| k@),
            handles: self.handles@.map_values(|h: Namespace| h@),
        }
    }
}

impl Namespaces {
    /// Keys are unique, each has one handle, and each handle has a path.
    pub closed spec fn wf(&self) -> bool {
        &&& self.keys@.len() == self.handles@.len()
        &&& keys_distinct(self@.keys)
        &&& forall|i: int| 0 <= i < self.handles@.len() ==> #[trigger] self.handles@[i].wf()
    }

    /// A well-formed registry has one handle per key and no key twice.
    pub proof fn lemma_wf(&self)
        requires
            self.wf(),
        ensures
            keys_distinct(self@.keys),
            self@.keys.len() == self@.handles.len(),
    {
    }

    /// An empty registry.
    pub fn new() -> (r: Self)
        ensures
            r.wf(),
            r@.keys.len() == 0,
            r@.handles.len() == 0,
    {
        let r = Namespaces { keys: Vec::new(), handles: Vec::new() };
        assert(r@.keys =~= seq![]);
        assert(r@.handles =~= seq![]);
        r
    }

    /// The number of namespaces.
    pub fn len(&self) -> (r: usize)
        requires
            self.wf(),
        ensures
            r == self@.keys.len(),
            r == self@.handles.len(),
    {
        self.keys.len()
    }

    /// The key at position `i`.
    pub fn key(&self, i: usize) -> (r: &String)
        requires
            self.wf(),
            i < self@.keys.len(),
        ensures
            r@ == self@.keys[i as int],
    {
        &self.keys[i]
    }

    /// The handle at position `i`.
    pub fn handle(&self, i: usize) -> (r: &Namespace)
        requires
            self.wf(),
            i < self@.handles.len(),
        ensures
            r@ == self@.handles[i as int],
            r.wf(),
    {
        &self.handles[i]
    }

    /// The position of `key`, if it is present.
    pub fn find(&self, key: &String) -> (r: Option<usize>)
        requires
            self.wf(),
        ensures
            match r {
                Some(i) => i == position_of(self@.keys, key@) && i < self@.keys.len(),
                None => !self@.keys.contains(key@) && position_of(self@.keys, key@) == -1,
            },
    {
        let mut i: usize = 0;
        while i < self.keys.len()
            invariant
                self.wf(),
                i <= self.keys@.len(),
                forall|j: int| 0 <= j < i ==> self@.keys[j] != key@,
            decreases self.keys@.len() - i,
        {
            if self.keys[i] == *key {
                assert(self@.keys[i as int] == key@);
                assert(self@.keys.contains(key@));
                let ghost p = position_of(self@.keys, key@);
                assert(0 <= p < self@.keys.len() && self@.keys[p] == key@);
                assert(p == i) by {
                    if p < i {
                    } else if p > i {
                        assert(keys_distinct(self@.keys));
                    }
                }
                return Some(i);
            }
            i += 1;
        }
        assert(!self@.keys.contains(key@)) by {
            if self@.keys.contains(key@) {
                let j = choose|j: int| 0 <= j < self@.keys.len() && self@.keys[j] == key@;
            }
        }
        None
    }

    /// The handle stored under `key`, if any.
    pub fn get(&self, key: &String) -> (r: Option<&Namespace>)
        requires
            self.wf(),
        ensures
            match r {
                Some(h) => self@.keys.contains(key@) && h@ == self@.handles[position_of(
                    self@.keys,
                    key@,
                )] && h.wf(),
                None => !self@.keys.contains(key@),
            },
    {
        match self.find(key) {
            Some(i) => Some(&self.handles[i]),
            None => None,
        }
    }

    /// Records `path` under `key`: appended to that key's handle where it
    /// exists, else a new handle of the kind named by `genre`.
    pub fn add(&mut self, key: String, genre: String, path: String)
        requires
            old(self).wf(),
        ensures
            final(self).wf(),
            final(self)@ == add_path(old(self)@, key@, kind_of(genre@), path@),
    {
        match self.find(&key) {
            Some(i) => {
                let mut h = self.handles.remove(i);
                h.push_path(path);
                self.handles.insert(i, h);
                assert(self@.handles =~= add_path(old(self)@, key@, kind_of(genre@), path@).handles);
            },
            None => {
                let ghost kv = key@;
                self.keys.push(key);
                self.handles.push(Namespace::new(genre, path));
                assert(self@.keys =~= old(self)@.keys.push(kv));
                assert(self@.handles =~= add_path(old(self)@, kv, kind_of(genre@), path@).handles);
            },
        }
    }
}


/// One entry of a process's namespace directory: its file name (`mnt`), its
/// path (`/proc/<pid>/ns/mnt`) and the target its link points to.
pub struct NsLink {
    pub name: String,
    pub path: String,
    pub target: String,
}

/// What a scan of every kind records for one link.
pub open spec fn link_entry(l: NsLink) -> EntryView {
    EntryView { key: namespace_id(l.target@), kind: kind_of(l.name@), path: l.path@ }
}

/// The entries for a sequence of links.
pub open spec fn link_entries(links: Seq<NsLink>) -> Seq<EntryView> {
    links.map_values(|l: NsLink| link_entry(l))
}

/// Groups the namespace links of every process by the identity in their
/// targets; links whose target holds none are left out.
pub fn collect_namespaces(links: &Vec<NsLink>) -> (r: Namespaces)
    ensures
        r.wf(),
        r@ == grouped(link_entries(links@)),
{
    let ghost es = link_entries(links@);
    let mut r = Namespaces::new();
    assert(es.take(0).len() == 0);
    assert(r@.keys =~= grouped(es.take(0)).keys);
    assert(r@.handles =~= grouped(es.take(0)).handles);
    let mut i: usize = 0;
    while i < links.len()
        invariant
            i <= links@.len(),
            es == link_entries(links@),
            r.wf(),
            r@ == grouped(es.take(i as int)),
        decreases links@.len() - i,
    {
        let l = &links[i];
        assert(es.take(i + 1).drop_last() =~= es.take(i as int));
        assert(es.take(i + 1).last() == link_entry(*l));
        match namespace_id_of(&l.target) {
            Some(k) => r.add(k, l.name.clone(), l.path.clone()),
            None => {},
        }
        i += 1;
    }
    assert(es.take(links@.len() as int) =~= es);
    r
}

/// The entry of one process directory in a scan of a single kind: its pid (the
/// directory name) and the target of its link for that kind, if it could be read.
pub struct ProcLink {
    pub pid: String,
    pub target: Option<String>,
}

/// `/proc/<pid>/ns/<kind>`.
pub open spec fn proc_ns_path(genre: NsType, pid: Seq<char>) -> Seq<char> {
    "/proc/"@ + pid + "/ns/"@ + kind_name(genre)
}

/// The key a scan of one kind records for a process: `origin` for process 1,
/// else the identity in its link target.
pub open spec fn proc_key(p: ProcLink) -> Option<Seq<char>> {
    if p.pid@ == "1"@ {
        Some("origin"@)
    } else {
        match p.target {
            Some(t) => namespace_id(t@),
            None => None,
        }
    }
}

/// What a scan of kind `genre` records for one process.
pub open spec fn proc_entry(genre: NsType, p: ProcLink) -> EntryView {
    EntryView { key: proc_key(p), kind: genre, path: proc_ns_path(genre, p.pid@) }
}

/// The entries for a sequence of processes.
pub open spec fn proc_entries(genre: NsType, procs: Seq<ProcLink>) -> Seq<EntryView> {
    procs.map_values(|p: ProcLink| proc_entry(genre, p))
}

/// `/proc/<pid>/ns/<kind>` as a string.
pub fn ns_path(genre: NsType, pid: &String) -> (r: String)
    ensures
        r@ == proc_ns_path(genre, pid@),
{
    let mut r = String::from_str("/proc/");
    r.append(pid.as_str());
    r.append("/ns/");
    let name = genre.name();
    r.append(name.as_str());
    r
}

/// Groups the namespaces of kind `genre` of every process: process 1 under the
/// key `origin`, the others by the identity in their link target; processes
/// whose link could not be read or holds no identity are left out.
pub fn collect_specific_namespaces(genre: NsType, procs: &Vec<ProcLink>) -> (r: Namespaces)
    ensures
        r.wf(),
        r@ == grouped(proc_entries(genre, procs@)),
{
    let ghost es = proc_entries(genre, procs@);
    proof {
        lemma_kind_name_round_trip(genre);
    }
    let mut r = Namespaces::new();
    assert(es.take(0).len() == 0);
    assert(r@.keys =~= grouped(es.take(0)).keys);
    assert(r@.handles =~= grouped(es.take(0)).handles);
    let mut i: usize = 0;
    while i < procs.len()
        invariant
            i <= procs@.len(),
            es == proc_entries(genre, procs@),
            kind_of(kind_name(genre)) == genre,
            r.wf(),
            r@ == grouped(es.take(i as int)),
        decreases procs@.len() - i,
    {
        let p = &procs[i];
        assert(es.take(i + 1).drop_last() =~= es.take(i as int));
        assert(es.take(i + 1).last() == proc_entry(genre, *p));
        let key = if p.pid == String::from_str("1") {
            Some(String::from_str("origin"))
        } else {
            match &p.target {
                Some(t) => namespace_id_of(t),
                None => None,
            }
        };
        match key {
            Some(k) => r.add(k, genre.name(), ns_path(genre, &p.pid)),
            None => {},
        }
        i += 1;
    }
    assert(es.take(procs@.len() as int) =~= es);
    r
}


/// The paths of the entries in `es` whose key is `k`, in order.
pub open spec fn paths_under(es: Seq<EntryView>, k: Seq<char>) -> Seq<Seq<char>>
    decreases es.len(),
{
    if es.len() == 0 {
        seq![]
    } else if es.last().key == Some(k) {
        paths_under(es.drop_last(), k).push(es.last().path)
    } else {
        paths_under(es.drop_last(), k)
    }
}

proof fn lemma_paths_under_none(es: Seq<EntryView>, k: Seq<char>)
    requires
        forall|i: int| 0 <= i < es.len() ==> es[i].key != Some(k),
    ensures
        paths_under(es, k) == Seq::<Seq<char>>::empty(),
    decreases es.len(),
{
    if es.len() > 0 {
        assert(es.last() == es[es.len() - 1]);
        lemma_paths_under_none(es.drop_last(), k);
    }
}

proof fn lemma_paths_under_contains(es: Seq<EntryView>, k: Seq<char>, i: int)
    requires
        0 <= i < es.len(),
        es[i].key == Some(k),
    ensures
        paths_under(es, k).contains(es[i].path),
    decreases es.len(),
{
    let n = es.len() - 1;
    if i == n {
        assert(paths_under(es, k).last() == es[i].path);
        assert(paths_under(es, k)[paths_under(es, k).len() - 1] == es[i].path);
    } else {
        lemma_paths_under_contains(es.drop_last(), k, i);
        let q = paths_under(es.drop_last(), k);
        let j = choose|j: int| 0 <= j < q.len() && q[j] == es[i].path;
        if es.last().key == Some(k) {
            assert(paths_under(es, k)[j] == es[i].path);
        }
    }
}

/// What a scan builds from `es`: each key once, the key set being the keys of
/// the entries, and under each key the paths of its entries in scan order.
pub proof fn lemma_grouped(es: Seq<EntryView>)
    ensures
        grouped(es).keys.len() == grouped(es).handles.len(),
        keys_distinct(grouped(es).keys),
        forall|k: Seq<char>| #[trigger]
            grouped(es).keys.contains(k) <==> exists|i: int|
                0 <= i < es.len() && #[trigger] es[i].key == Some(k),
        forall|p: int| 0 <= p < grouped(es).keys.len() ==> #[trigger] grouped(es).handles[p].paths
            == paths_under(es, grouped(es).keys[p]),
    decreases es.len(),
{
    if es.len() > 0 {
        let d = es.drop_last();
        lemma_grouped(d);
        let r0 = grouped(d);
        let r = grouped(es);
        let e = es.last();
        assert(e == es[es.len() - 1]);
        assert forall|i: int| 0 <= i < d.len() implies d[i] == es[i] by {}
        match e.key {
            None => {
                assert forall|k: Seq<char>| #[trigger]
                    r.keys.contains(k) <==> exists|i: int|
                        0 <= i < es.len() && #[trigger] es[i].key == Some(k) by {
                    if exists|i: int| 0 <= i < es.len() && #[trigger] es[i].key == Some(k) {
                        let i = choose|i: int| 0 <= i < es.len() && #[trigger] es[i].key == Some(k);
                        assert(d[i].key == Some(k));
                    }
                    if r.keys.contains(k) {
                        let i = choose|i: int| 0 <= i < d.len() && #[trigger] d[i].key == Some(k);
                        assert(es[i].key == Some(k));
                    }
                }
            },
            Some(k0) => {
                let pos = position_of(r0.keys, k0);
                if pos >= 0 {
                    assert(0 <= pos < r0.keys.len() && r0.keys[pos] == k0);
                    assert forall|p: int| 0 <= p < r.keys.len() implies #[trigger] r.handles[p].paths
                        == paths_under(es, r.keys[p]) by {
                        if p != pos {
                            assert(r0.keys[p] != k0);
                        }
                    }
                    assert forall|k: Seq<char>| #[trigger]
                        r.keys.contains(k) <==> exists|i: int|
                            0 <= i < es.len() && #[trigger] es[i].key == Some(k) by {
                        if exists|i: int| 0 <= i < es.len() && #[trigger] es[i].key == Some(k) {
                            let i = choose|i: int| 0 <= i < es.len() && #[trigger] es[i].key == Some(k);
                            if i < d.len() {
                                assert(d[i].key == Some(k));
                            }
                        }
                        if r.keys.contains(k) {
                            let i = choose|i: int| 0 <= i < d.len() && #[trigger] d[i].key == Some(k);
                            assert(es[i].key == Some(k));
                        }
                    }
                } else {
                    assert(!r0.keys.contains(k0));
                    assert forall|i: int| 0 <= i < d.len() implies d[i].key != Some(k0) by {
                        if d[i].key == Some(k0) {
                            assert(r0.keys.contains(k0));
                        }
                    }
                    lemma_paths_under_none(d, k0);
                    assert(paths_under(es, k0) =~= seq![e.path]);
                    assert forall|p: int| 0 <= p < r.keys.len() implies #[trigger] r.handles[p].paths
                        == paths_under(es, r.keys[p]) by {
                        if p < r0.keys.len() {
                            assert(r.keys[p] == r0.keys[p]);
                            assert(r0.keys[p] != k0);
                        }
                    }
                    assert forall|k: Seq<char>| #[trigger]
                        r.keys.contains(k) <==> exists|i: int|
                            0 <= i < es.len() && #[trigger] es[i].key == Some(k) by {
                        if exists|i: int| 0 <= i < es.len() && #[trigger] es[i].key == Some(k) {
                            let i = choose|i: int| 0 <= i < es.len() && #[trigger] es[i].key == Some(k);
                            if i < d.len() {
                                assert(d[i].key == Some(k));
                                assert(r0.keys.contains(k));
                                let j = choose|j: int| 0 <= j < r0.keys.len() && r0.keys[j] == k;
                                assert(r.keys[j] == k);
                            } else {
                                assert(r.keys[r.keys.len() - 1] == k);
                            }
                        }
                        if r.keys.contains(k) {
                            let j = choose|j: int| 0 <= j < r.keys.len() && r.keys[j] == k;
                            if j < r0.keys.len() {
                                assert(r0.keys.contains(k));
                                let i = choose|i: int| 0 <= i < d.len() && #[trigger] d[i].key == Some(k);
                                assert(es[i].key == Some(k));
                            } else {
                                assert(es[es.len() - 1].key == Some(k));
                            }
                        }
                    }
                }
            },
        }
    }
}

/// Entries that share one key end up in one handle, found under that key
/// alone, which can be reached through each of their paths.
pub proof fn lemma_shared_namespace_collapses(es: Seq<EntryView>, i: int, j: int, k: Seq<char>)
    requires
        0 <= i < es.len(),
        0 <= j < es.len(),
        es[i].key == Some(k),
        es[j].key == Some(k),
    ensures
        grouped(es).keys.contains(k),
        forall|p: int|
            0 <= p < grouped(es).keys.len() && grouped(es).keys[p] == k ==> p == position_of(
                grouped(es).keys,
                k,
            ),
        grouped(es).handles[position_of(grouped(es).keys, k)].paths.contains(es[i].path),
        grouped(es).handles[position_of(grouped(es).keys, k)].paths.contains(es[j].path),
{
    lemma_grouped(es);
    let r = grouped(es);
    assert(r.keys.contains(k));
    let p = position_of(r.keys, k);
    assert(0 <= p < r.keys.len() && r.keys[p] == k);
    assert forall|q: int| 0 <= q < r.keys.len() && r.keys[q] == k implies q == p by {
        if q < p || q > p {
            assert(keys_distinct(r.keys));
        }
    }
    lemma_paths_under_contains(es, k, i);
    lemma_paths_under_contains(es, k, j);
}

/// A scan of any one kind that finds process 1 holds an `origin` entry.
pub proof fn lemma_origin_present(genre: NsType, procs: Seq<ProcLink>, i: int)
    requires
        0 <= i < procs.len(),
        procs[i].pid@ == "1"@,
    ensures
        grouped(proc_entries(genre, procs)).keys.contains("origin"@),
{
    let es = proc_entries(genre, procs);
    lemma_grouped(es);
    assert(es[i].key == Some("origin"@));
}

/// The key a link is grouped under depends on its target text alone: reading
/// an unchanged link again gives the same key.
pub proof fn lemma_key_stable(a: NsLink, b: NsLink)
    requires
        a.target@ == b.target@,
    ensures
        link_entry(a).key == link_entry(b).key,
{
}


/// The value of a string of decimal digits.
pub open spec fn decimal_value(s: Seq<char>) -> int
    decreases s.len(),
{
    if s.len() == 0 {
        0
    } else {
        decimal_value(s.drop_last()) * 10 + (s.last() as int - '0' as int)
    }
}

/// A directory name under `/proc` that names a process: a non-empty run of
/// decimal digits whose value fits in 64 bits.
pub open spec fn is_pid_name(s: Seq<char>) -> bool {
    &&& s.len() > 0
    &&& forall|i: int| 0 <= i < s.len() ==> '0' <= #[trigger] s[i] <= '9'
    &&& decimal_value(s) <= u64::MAX
}

proof fn lemma_decimal_value_nonneg(s: Seq<char>)
    requires
        forall|j: int| 0 <= j < s.len() ==> '0' <= #[trigger] s[j] <= '9',
    ensures
        decimal_value(s) >= 0,
    decreases s.len(),
{
    if s.len() > 0 {
        lemma_decimal_value_nonneg(s.drop_last());
    }
}

proof fn lemma_decimal_value_grows(s: Seq<char>, i: int)
    requires
        0 <= i <= s.len(),
        forall|j: int| 0 <= j < s.len() ==> '0' <= #[trigger] s[j] <= '9',
    ensures
        decimal_value(s.take(i)) <= decimal_value(s),
    decreases s.len() - i,
{
    if i < s.len() {
        lemma_decimal_value_grows(s, i + 1);
        lemma_decimal_value_nonneg(s.take(i));
        assert(s.take(i + 1).drop_last() =~= s.take(i));
        assert(s.take(i + 1).last() == s[i]);
    } else {
        assert(s.take(i) =~= s);
    }
}

/// Whether `name` is the directory of a process under `/proc`.
pub fn is_process_dir(name: &String) -> (r: bool)
    ensures
        r == is_pid_name(name@),
{
    let s = name.as_str();
    let n = s.unicode_len();
    if n == 0 {
        return false;
    }
    let mut acc: u64 = 0;
    let mut i: usize = 0;
    while i < n
        invariant
            n == s@.len(),
            s@ == name@,
            i <= n,
            forall|j: int| 0 <= j < i ==> '0' <= #[trigger] s@[j] <= '9',
            acc as int == decimal_value(s@.take(i as int)),
        decreases n - i,
    {
        let c = s.get_char(i);
        assert(s@.take(i + 1).drop_last() =~= s@.take(i as int));
        assert(s@.take(i + 1).last() == c);
        if c < '0' || c > '9' {
            return false;
        }
        let d = (c as u32 - '0' as u32) as u64;
        if acc > (u64::MAX - d) / 10 {
            proof {
                assert(acc * 10 + d > u64::MAX) by (nonlinear_arith)
                    requires
                        acc > (u64::MAX - d) / 10,
                        d <= 9,
                ;
                if forall|j: int| 0 <= j < s@.len() ==> '0' <= #[trigger] s@[j] <= '9' {
                    lemma_decimal_value_grows(s@, i + 1);
                }
            }
            return false;
        }
        acc = acc * 10 + d;
        i += 1;
    }
    assert(s@.take(n as int) =~= s@);
    true
}


/// What to do next while looking for a descriptor of a namespace: open the
/// candidate path at a position, or stop with a descriptor or with none.
#[derive(Debug, Clone, Copy, PartialEq, Eq, Structural)]
pub enum FdStep {
    Open(usize),
    Found(i32),
    Unavailable,
}

/// The first step of a search among `n` candidate paths.
pub open spec fn fd_first_step(n: nat) -> FdStep {
    if n > 0 {
        FdStep::Open(0)
    } else {
        FdStep::Unavailable
    }
}

/// The step after opening candidate `i` of `n` gave `opened`.
pub open spec fn fd_next_step(n: nat, i: nat, opened: Option<i32>) -> FdStep {
    match opened {
        Some(fd) => FdStep::Found(fd),
        None => if i + 1 < n {
            FdStep::Open((i + 1) as usize)
        } else {
            FdStep::Unavailable
        },
    }
}

/// Where a search among `n` candidates stands once the attempts it asked for
/// have given `outcomes`, in order.
pub open spec fn fd_search(n: nat, outcomes: Seq<Option<i32>>) -> FdStep
    decreases outcomes.len(),
{
    if outcomes.len() == 0 {
        fd_first_step(n)
    } else {
        match fd_search(n, outcomes.drop_last()) {
            FdStep::Open(i) => fd_next_step(n, i as nat, outcomes.last()),
            done => done,
        }
    }
}

/// While every attempt fails the search opens the candidates one after the
/// other, in order, and once all have failed it ends with no descriptor.
pub proof fn lemma_fd_search_all_fail(n: nat, outcomes: Seq<Option<i32>>)
    requires
        outcomes.len() <= n,
        n <= usize::MAX,
        forall|i: int| 0 <= i < outcomes.len() ==> #[trigger] outcomes[i] is None,
    ensures
        outcomes.len() < n ==> fd_search(n, outcomes) == FdStep::Open(outcomes.len() as usize),
        outcomes.len() == n ==> fd_search(n, outcomes) == FdStep::Unavailable,
    decreases outcomes.len(),
{
    if outcomes.len() > 0 {
        assert(outcomes.last() == outcomes[outcomes.len() - 1]);
        lemma_fd_search_all_fail(n, outcomes.drop_last());
    }
}

/// The first attempt that succeeds ends the search with its descriptor.
pub proof fn lemma_fd_search_first_success(n: nat, outcomes: Seq<Option<i32>>, fd: i32)
    requires
        0 < outcomes.len() <= n,
        n <= usize::MAX,
        forall|i: int| 0 <= i < outcomes.len() - 1 ==> #[trigger] outcomes[i] is None,
        outcomes.last() == Some(fd),
    ensures
        fd_search(n, outcomes) == FdStep::Found(fd),
{
    let d = outcomes.drop_last();
    assert forall|i: int| 0 <= i < d.len() implies #[trigger] d[i] is None by {
        assert(d[i] == outcomes[i]);
    }
    lemma_fd_search_all_fail(n, d);
}

impl Namespace {
    /// The first step of a search for a descriptor of this namespace.
    pub fn first_fd_step(&self) -> (r: FdStep)
        ensures
            r == fd_first_step(self@.paths.len()),
    {
        if self.procs.len() > 0 {
            FdStep::Open(0)
        } else {
            FdStep::Unavailable
        }
    }

    /// The step after opening candidate `tried` read-only gave `opened`: the
    /// descriptor if it opened, else the next candidate, else none.
    pub fn next_fd_step(&self, tried: usize, opened: Option<i32>) -> (r: FdStep)
        requires
            tried < self@.paths.len(),
        ensures
            r == fd_next_step(self@.paths.len(), tried as nat, opened),
    {
        match opened {
            Some(fd) => FdStep::Found(fd),
            None => if tried < self.procs.len() - 1 {
                FdStep::Open(tried + 1)
            } else {
                FdStep::Unavailable
            },
        }
    }
}

} // verus!
