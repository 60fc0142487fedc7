//! The modules that a list of mappings loaded.
//!
//! What a module holds is read out of its file, step by step: a scan says what
//! it needs next, and takes the answer in.

use crate::artifacts::{mapping_views, MappingView, MemtrackEvent, ProcessMapping};
use crate::metadata::ProcessUnwindData;
use crate::module_artifacts::{
    all_mappings, artifact_views, device_major, device_minor, is_mapped_file,
    law_device_and_inode_must_agree, mapping_key, names_mapped_file, read_mappings, FileId,
};
use crate::sort::{law_sorted_is_in_order, sorted_by};
use crate::text::{
    chars_of, lemma_split_is_nonempty, lemma_split_join, lemma_split_whole, same_chars, split,
    split_parts, views,
};
use std::collections::HashMap;
use vstd::prelude::*;
use vstd::slice::slice_to_vec;

verus! {

broadcast use vstd::std_specs::hash::group_hash_axioms;

/// What a path means: whether it starts at the root, and its components.
#[verifier::ext_equal]
pub struct PathView {
    pub rooted: bool,
    pub parts: Seq<Seq<char>>,
}

/// Whether the part at `i` between the slashes of a path is a component:
/// repeated and trailing slashes make none, and neither does a `.`, unless the
/// path starts with it.
pub open spec fn is_component(rooted: bool, parts: Seq<Seq<char>>, i: int) -> bool {
    parts[i].len() > 0 && (parts[i] != seq!['.'] || (i == 0 && !rooted))
}

/// The components among the parts before `n`.
pub open spec fn components(rooted: bool, parts: Seq<Seq<char>>, n: int) -> Seq<Seq<char>>
    decreases n,
{
    if n <= 0 {
        Seq::empty()
    } else if is_component(rooted, parts, n - 1) {
        components(rooted, parts, n - 1).push(parts[n - 1])
    } else {
        components(rooted, parts, n - 1)
    }
}

/// What a path means.
pub open spec fn path_view(path: Seq<char>) -> PathView {
    let rooted = path.len() > 0 && path[0] == '/';
    let parts = split(path, seq!['/']);
    PathView { rooted, parts: components(rooted, parts, parts.len() as int) }
}

/// What a path means, to compare by.
#[derive(Debug)]
pub struct PathKey {
    rooted: bool,
    parts: Vec<Vec<char>>,
}

impl View for PathKey {
    type V = PathView;

    closed spec fn view(&self) -> PathView {
        PathView { rooted: self.rooted, parts: self.parts@.map_values(|p: Vec<char>| p@) }
    }
}

impl PathKey {
    /// What `path` means.
    pub fn new(path: &str) -> (r: PathKey)
        ensures
            r@ == path_view(path@),
    {
        let chars = chars_of(path);
        let rooted = chars.len() > 0 && chars[0] == '/';
        let slash: [char; 1] = ['/'];
        let found = split_parts(chars.as_slice(), slash.as_slice());
        let ghost all = split(path@, seq!['/']);
        assert(slash@ =~= seq!['/']);
        let mut parts: Vec<Vec<char>> = Vec::new();
        assert(parts@.map_values(|p: Vec<char>| p@) =~= components(rooted, all, 0));
        for i in 0..found.len()
            invariant
                i <= found@.len(),
                views(found@) == all,
                parts@.map_values(|p: Vec<char>| p@) == components(rooted, all, i as int),
        {
            let part = found[i];
            assert(all[i as int] == part@);
            let dot = part.len() == 1 && part[0] == '.';
            assert(dot == (part@ =~= seq!['.']));
            let ghost before = parts@;
            if part.len() > 0 && (!dot || (i == 0 && !rooted)) {
                parts.push(slice_to_vec(part));
                assert(parts@.map_values(|p: Vec<char>| p@) =~= before.map_values(
                    |p: Vec<char>| p@,
                ).push(part@));
            }
        }
        PathKey { rooted, parts }
    }

    /// Whether two paths mean the same.
    pub fn same(&self, other: &PathKey) -> (r: bool)
        ensures
            r == (self@ == other@),
    {
        if self.rooted != other.rooted || self.parts.len() != other.parts.len() {
            proof {
                if self@ == other@ {
                    assert(self@.parts.len() == other@.parts.len());
                }
            }
            return false;
        }
        for i in 0..self.parts.len()
            invariant
                self.parts@.len() == other.parts@.len(),
                forall|j: int| 0 <= j < i ==> self.parts@[j]@ == other.parts@[j]@,
        {
            if !same_chars(self.parts[i].as_slice(), other.parts[i].as_slice()) {
                proof {
                    if self@ == other@ {
                        assert(self@.parts[i as int] == other@.parts[i as int]);
                    }
                }
                return false;
            }
        }
        assert(self@.parts =~= other@.parts);
        true
    }
}

/// The unwind data of one module, of which only the base address is read here.
#[derive(Debug)]
pub struct ModuleUnwindData<U> {
    pub base_svma: u64,
    pub data: U,
}

/// How one process mapped one module.
#[derive(Debug)]
pub struct ProcessLoadedModule {
    pub symbols_load_bias: Option<u64>,
    pub process_unwind_data: Option<ProcessUnwindData>,
}

/// One module with what was read out of its file, and who mapped it.
#[derive(Debug)]
pub struct LoadedModule<S, U> {
    pub path: String,
    pub module_symbols: Option<S>,
    pub unwind_data: Option<ModuleUnwindData<U>>,
    pub process_loaded_modules: HashMap<i32, ProcessLoadedModule>,
}

/// What a [`LoadedModule`] holds.
#[verifier::ext_equal]
pub struct ModuleView<S, U> {
    pub path: Seq<char>,
    pub module_symbols: Option<S>,
    pub unwind_data: Option<ModuleUnwindData<U>>,
    pub processes: Map<i32, ProcessLoadedModule>,
}

impl<S, U> View for LoadedModule<S, U> {
    type V = ModuleView<S, U>;

    open spec fn view(&self) -> ModuleView<S, U> {
        ModuleView {
            path: self.path@,
            module_symbols: self.module_symbols,
            unwind_data: self.unwind_data,
            processes: self.process_loaded_modules@,
        }
    }
}

/// Modules by the meaning of their paths.
pub type Modules<S, U> = Map<PathView, ModuleView<S, U>>;

/// The modules that a list holds, by the meaning of their paths.
pub open spec fn module_map<S, U>(modules: Seq<LoadedModule<S, U>>) -> Modules<S, U>
    decreases modules.len(),
{
    if modules.len() == 0 {
        Map::empty()
    } else {
        module_map(modules.drop_last()).insert(path_view(modules.last().path@), modules.last()@)
    }
}

/// Whether no two modules of a list have paths that mean the same.
pub open spec fn distinct_modules<S, U>(modules: Seq<LoadedModule<S, U>>) -> bool {
    forall|i: int, j: int|
        0 <= i < j < modules.len() ==> path_view((#[trigger] modules[i]).path@) != path_view(
            (#[trigger] modules[j]).path@,
        )
}

proof fn lemma_module_of_index<S, U>(modules: Seq<LoadedModule<S, U>>, i: int)
    requires
        distinct_modules(modules),
        0 <= i < modules.len(),
    ensures
        module_map(modules).contains_key(path_view(modules[i].path@)),
        module_map(modules)[path_view(modules[i].path@)] == modules[i]@,
    decreases modules.len(),
{
    let front = modules.drop_last();
    if i < front.len() {
        assert(front[i] == modules[i]);
        assert forall|a: int, b: int| 0 <= a < b < front.len() implies path_view(
            (#[trigger] front[a]).path@,
        ) != path_view((#[trigger] front[b]).path@) by {
            assert(front[a] == modules[a] && front[b] == modules[b]);
        }
        lemma_module_of_index(front, i);
        assert(path_view(modules[i].path@) != path_view(modules[modules.len() - 1].path@));
    }
}

proof fn lemma_no_such_module<S, U>(modules: Seq<LoadedModule<S, U>>, key: PathView)
    requires
        forall|i: int| 0 <= i < modules.len() ==> path_view((#[trigger] modules[i]).path@) != key,
    ensures
        !module_map(modules).contains_key(key),
    decreases modules.len(),
{
    if modules.len() > 0 {
        let front = modules.drop_last();
        assert forall|i: int| 0 <= i < front.len() implies path_view((#[trigger] front[i]).path@)
            != key by {
            assert(front[i] == modules[i]);
        }
        lemma_no_such_module(front, key);
        assert(path_view(modules[modules.len() - 1].path@) != key);
    }
}

proof fn lemma_module_replaced<S, U>(
    modules: Seq<LoadedModule<S, U>>,
    i: int,
    module: LoadedModule<S, U>,
)
    requires
        distinct_modules(modules),
        0 <= i < modules.len(),
        module.path@ == modules[i].path@,
    ensures
        distinct_modules(modules.update(i, module)),
        module_map(modules.update(i, module)) == module_map(modules).insert(
            path_view(module.path@),
            module@,
        ),
    decreases modules.len(),
{
    let updated = modules.update(i, module);
    let key = path_view(module.path@);
    assert forall|a: int, b: int| 0 <= a < b < updated.len() implies path_view(
        (#[trigger] updated[a]).path@,
    ) != path_view((#[trigger] updated[b]).path@) by {
        assert(updated[a].path@ == modules[a].path@);
        assert(updated[b].path@ == modules[b].path@);
    }
    let front = modules.drop_last();
    if i == modules.len() - 1 {
        assert(updated.drop_last() =~= front);
        assert(module_map(updated) =~= module_map(modules).insert(key, module@));
    } else {
        assert(front[i] == modules[i]);
        assert forall|a: int, b: int| 0 <= a < b < front.len() implies path_view(
            (#[trigger] front[a]).path@,
        ) != path_view((#[trigger] front[b]).path@) by {
            assert(front[a] == modules[a] && front[b] == modules[b]);
        }
        lemma_module_replaced(front, i, module);
        assert(updated.drop_last() =~= front.update(i, module));
        let last = path_view(modules[modules.len() - 1].path@);
        assert(path_view(modules[i].path@) != last);
        assert(module_map(updated) =~= module_map(modules).insert(key, module@));
    }
}

/// What a scan does for the mapping at hand.
#[derive(Debug, Clone, Copy, PartialEq, Eq)]
pub enum ScanStage {
    /// Find out whether the path still names the mapped file.
    Identify,
    /// Compute the load bias.
    LoadBias,
    /// Load the symbols; the load bias is known.
    Symbols(u64),
    /// Load the unwind data; the load bias is known.
    UnwindData(u64),
}

/// What a scan needs next, for its current mapping.
#[derive(Debug, Clone, Copy, PartialEq, Eq)]
pub enum ScanRequest {
    /// Which file the path names.
    FileId,
    /// The load bias of the mapping.
    LoadBias,
    /// The symbols in the file.
    Symbols,
    /// The unwind data in the file, for a mapping with this load bias.
    UnwindData(u64),
    /// Nothing: there are no more mappings.
    Done,
}

/// What came of a request.
#[derive(Debug)]
pub enum ScanReply<S, U> {
    /// Which file the path names, if it can be read.
    FileId(Option<FileId>),
    /// The load bias, if it could be computed.
    LoadBias(Option<u64>),
    /// The symbols, if they could be loaded.
    Symbols(Option<S>),
    /// The unwind data of the module and of the process, if they could be loaded.
    UnwindData(Option<(ModuleUnwindData<U>, ProcessUnwindData)>),
}

/// What a scan has done, and what it has before it.
#[verifier::ext_equal]
pub struct ScanView<S, U> {
    /// The mapping at hand, and those after it.
    pub rest: Seq<MappingView>,
    pub stage: ScanStage,
    pub modules: Modules<S, U>,
}

/// A module of which nothing is known yet.
pub open spec fn fresh_module<S, U>(path: Seq<char>) -> ModuleView<S, U> {
    ModuleView { path, module_symbols: None, unwind_data: None, processes: Map::empty() }
}

/// The modules, with one for `path`.
pub open spec fn with_module<S, U>(modules: Modules<S, U>, path: Seq<char>) -> Modules<S, U> {
    if modules.contains_key(path_view(path)) {
        modules
    } else {
        modules.insert(path_view(path), fresh_module(path))
    }
}

/// The sum modulo 2 to the 64th.
pub open spec fn wrapping_sum(a: u64, b: u64) -> u64 {
    ((a + b) % 0x1_0000_0000_0000_0000) as u64
}

/// How a process that made `mapping` unwinds through a module whose unwind data
/// is known.
pub open spec fn process_unwind_data(
    mapping: MappingView,
    base_svma: u64,
    load_bias: u64,
) -> ProcessUnwindData {
    ProcessUnwindData {
        timestamp: Some(mapping.timestamp),
        avma_range: core::ops::Range { start: mapping.start, end: mapping.end },
        base_avma: wrapping_sum(base_svma, load_bias),
    }
}

/// The module after process `pid` mapped it. What was known of how the process
/// unwinds through it stays where nothing new is.
pub open spec fn mapped_by<S, U>(
    module: ModuleView<S, U>,
    pid: i32,
    load_bias: u64,
    unwind: Option<ProcessUnwindData>,
) -> ModuleView<S, U> {
    let known = if module.processes.contains_key(pid) {
        module.processes[pid].process_unwind_data
    } else {
        None
    };
    ModuleView {
        processes: module.processes.insert(
            pid,
            ProcessLoadedModule {
                symbols_load_bias: Some(load_bias),
                process_unwind_data: if unwind is Some {
                    unwind
                } else {
                    known
                },
            },
        ),
        ..module
    }
}

impl<S, U> ScanView<S, U> {
    /// The mapping at hand.
    pub open spec fn mapping(self) -> MappingView {
        self.rest[0]
    }

    /// What the path of the mapping at hand means.
    pub open spec fn key(self) -> PathView {
        path_view(self.mapping().path)
    }

    /// The module of the mapping at hand.
    pub open spec fn module(self) -> ModuleView<S, U> {
        self.modules[self.key()]
    }

    /// What holds of every scan: symbols are loaded only for a module that has
    /// none, and so is unwind data.
    pub open spec fn consistent(self) -> bool {
        &&& self.rest.len() == 0 ==> self.stage is Identify
        &&& self.stage is Symbols ==> self.modules.contains_key(self.key())
            && self.module().module_symbols is None
        &&& self.stage is UnwindData ==> self.modules.contains_key(self.key())
            && self.module().unwind_data is None
    }

    /// The scan with another module for the mapping at hand.
    pub open spec fn with_current(self, module: ModuleView<S, U>) -> ScanView<S, U> {
        ScanView { modules: self.modules.insert(self.key(), module), ..self }
    }

    /// The scan before the next mapping.
    pub open spec fn advanced(self) -> ScanView<S, U> {
        ScanView { rest: self.rest.skip(1), stage: ScanStage::Identify, ..self }
    }

    /// The scan after the mapping at hand was taken in.
    pub open spec fn taken_in(self, load_bias: u64, unwind: Option<ProcessUnwindData>) -> ScanView<
        S,
        U,
    > {
        self.with_current(
            mapped_by(self.module(), self.mapping().pid, load_bias, unwind),
        ).advanced()
    }

    /// The scan once the symbols have been dealt with: unwind data that is
    /// already known is shared, and loaded otherwise.
    pub open spec fn after_symbols(self, load_bias: u64) -> ScanView<S, U> {
        match self.module().unwind_data {
            Some(unwind_data) => self.taken_in(
                load_bias,
                Some(process_unwind_data(self.mapping(), unwind_data.base_svma, load_bias)),
            ),
            None => ScanView { stage: ScanStage::UnwindData(load_bias), ..self },
        }
    }

    /// The scan after a reply. A reply to anything else than what the scan needs
    /// changes nothing.
    pub open spec fn answered(self, reply: ScanReply<S, U>) -> ScanView<S, U> {
        if self.rest.len() == 0 {
            self
        } else {
            match (self.stage, reply) {
                (ScanStage::Identify, ScanReply::FileId(file)) => if file matches Some(f)
                    && is_mapped_file(self.mapping().dev, self.mapping().ino, f) {
                    ScanView { stage: ScanStage::LoadBias, ..self }
                } else {
                    self.advanced()
                },
                (ScanStage::LoadBias, ScanReply::LoadBias(None)) => self.advanced(),
                (ScanStage::LoadBias, ScanReply::LoadBias(Some(load_bias))) => {
                    let entered = ScanView {
                        modules: with_module(self.modules, self.mapping().path),
                        ..self
                    };
                    if entered.module().module_symbols is None {
                        ScanView { stage: ScanStage::Symbols(load_bias), ..entered }
                    } else {
                        entered.after_symbols(load_bias)
                    }
                },
                (ScanStage::Symbols(load_bias), ScanReply::Symbols(None)) => self.after_symbols(
                    load_bias,
                ),
                (ScanStage::Symbols(load_bias), ScanReply::Symbols(symbols)) => self.with_current(
                    ModuleView { module_symbols: symbols, ..self.module() },
                ).after_symbols(load_bias),
                (ScanStage::UnwindData(load_bias), ScanReply::UnwindData(None)) => self.taken_in(
                    load_bias,
                    None,
                ),
                (ScanStage::UnwindData(load_bias), ScanReply::UnwindData(Some((module, process)))) =>
                self.with_current(
                    ModuleView { unwind_data: Some(module), ..self.module() },
                ).taken_in(
                    load_bias,
                    Some(
                        ProcessUnwindData { timestamp: Some(self.mapping().timestamp), ..process },
                    ),
                ),
                _ => self,
            }
        }
    }
}

/// A scan over mappings for the modules that they loaded.
#[derive(Debug)]
pub struct ModuleScan<S, U> {
    mappings: Vec<ProcessMapping>,
    at: usize,
    stage: ScanStage,
    keys: Vec<PathKey>,
    modules: Vec<LoadedModule<S, U>>,
}

impl<S, U> View for ModuleScan<S, U> {
    type V = ScanView<S, U>;

    closed spec fn view(&self) -> ScanView<S, U> {
        ScanView {
            rest: mapping_views(self.mappings@).skip(self.at as int),
            stage: self.stage,
            modules: module_map(self.modules@),
        }
    }
}

impl<S, U> ModuleScan<S, U> {
    /// The invariant of a scan.
    pub closed spec fn inv(&self) -> bool {
        self.well_formed() && self@.consistent()
    }

    /// The part of the invariant that holds between two steps, too.
    spec fn well_formed(&self) -> bool {
        &&& self.at <= self.mappings@.len()
        &&& self.keys@.len() == self.modules@.len()
        &&& forall|i: int|
            0 <= i < self.keys@.len() ==> (#[trigger] self.keys@[i])@ == path_view(
                self.modules@[i].path@,
            )
        &&& distinct_modules(self.modules@)
    }

    /// A scan over `mappings`.
    pub fn new(mappings: Vec<ProcessMapping>) -> (r: ModuleScan<S, U>)
        ensures
            r.inv(),
            r@.consistent(),
            r@ == (ScanView::<S, U> {
                rest: mapping_views(mappings@),
                stage: ScanStage::Identify,
                modules: Map::empty(),
            }),
    {
        ModuleScan {
            mappings,
            at: 0,
            stage: ScanStage::Identify,
            keys: Vec::new(),
            modules: Vec::new(),
        }
    }

    /// The mapping at hand, if there is one.
    pub fn current(&self) -> (r: Option<&ProcessMapping>)
        requires
            self.inv(),
        ensures
            match r {
                Some(mapping) => self@.rest.len() > 0 && mapping@ == self@.mapping(),
                None => self@.rest.len() == 0,
            },
    {
        if self.at < self.mappings.len() {
            Some(&self.mappings[self.at])
        } else {
            None
        }
    }

    /// What the scan needs next.
    pub fn request(&self) -> (r: ScanRequest)
        requires
            self.inv(),
        ensures
            r == if self@.rest.len() == 0 {
                ScanRequest::Done
            } else {
                match self@.stage {
                    ScanStage::Identify => ScanRequest::FileId,
                    ScanStage::LoadBias => ScanRequest::LoadBias,
                    ScanStage::Symbols(_) => ScanRequest::Symbols,
                    ScanStage::UnwindData(load_bias) => ScanRequest::UnwindData(load_bias),
                }
            },
    {
        if self.at == self.mappings.len() {
            return ScanRequest::Done;
        }
        match self.stage {
            ScanStage::Identify => ScanRequest::FileId,
            ScanStage::LoadBias => ScanRequest::LoadBias,
            ScanStage::Symbols(_) => ScanRequest::Symbols,
            ScanStage::UnwindData(load_bias) => ScanRequest::UnwindData(load_bias),
        }
    }

    /// Where the module for `key` stands, if there is one.
    fn find(&self, key: &PathKey) -> (r: Option<usize>)
        requires
            self.well_formed(),
        ensures
            match r {
                Some(i) => i < self.modules@.len() && path_view(self.modules@[i as int].path@)
                    == key@ && module_map(self.modules@).contains_key(key@) && module_map(
                    self.modules@,
                )[key@] == self.modules@[i as int]@,
                None => !module_map(self.modules@).contains_key(key@) && forall|i: int|
                    0 <= i < self.modules@.len() ==> path_view(
                        (#[trigger] self.modules@[i]).path@,
                    ) != key@,
            },
    {
        for i in 0..self.keys.len()
            invariant
                self.well_formed(),
                forall|j: int| 0 <= j < i ==> (#[trigger] self.keys@[j])@ != key@,
        {
            if self.keys[i].same(key) {
                proof {
                    lemma_module_of_index(self.modules@, i as int);
                }
                return Some(i);
            }
        }
        proof {
            assert forall|i: int| 0 <= i < self.modules@.len() implies path_view(
                (#[trigger] self.modules@[i]).path@,
            ) != key@ by {
                assert(self.keys@[i]@ != key@);
            }
            lemma_no_such_module(self.modules@, key@);
        }
        None
    }

    /// Goes on to the next mapping.
    fn advance(&mut self)
        requires
            old(self).well_formed(),
            old(self)@.rest.len() > 0,
        ensures
            final(self).well_formed(),
            final(self)@ == old(self)@.advanced(),
    {
        let ghost before = self@;
        assert(self.at < self.mappings.len());
        self.at = self.at + 1;
        self.stage = ScanStage::Identify;
        assert(self@.rest =~= before.rest.skip(1));
    }

    /// Where the module of the mapping at hand stands.
    fn current_module(&self) -> (r: usize)
        requires
            self.well_formed(),
            self@.rest.len() > 0,
            self@.modules.contains_key(self@.key()),
        ensures
            r < self.modules@.len(),
            path_view(self.modules@[r as int].path@) == self@.key(),
            self@.module() == self.modules@[r as int]@,
    {
        let key = PathKey::new(self.mappings[self.at].path.as_str());
        match self.find(&key) {
            Some(i) => i,
            None => 0,
        }
    }

    /// Makes sure that there is a module for the mapping at hand.
    fn enter(&mut self)
        requires
            old(self).well_formed(),
            old(self)@.rest.len() > 0,
            old(self)@.stage is LoadBias,
        ensures
            final(self).well_formed(),
            final(self)@.modules.contains_key(final(self)@.key()),
            final(self)@ == (ScanView {
                modules: with_module(old(self)@.modules, old(self)@.mapping().path),
                ..old(self)@
            }),
    {
        let ghost before = *self;
        let path = self.mappings[self.at].path.clone();
        let key = PathKey::new(path.as_str());
        if self.find(&key).is_none() {
            let ghost new_key = key@;
            let module = LoadedModule {
                path,
                module_symbols: None,
                unwind_data: None,
                process_loaded_modules: HashMap::new(),
            };
            self.keys.push(key);
            self.modules.push(module);
            proof {
                assert(self.modules@.drop_last() =~= before.modules@);
                assert forall|i: int, j: int| 0 <= i < j < self.modules@.len() implies path_view(
                    (#[trigger] self.modules@[i]).path@,
                ) != path_view((#[trigger] self.modules@[j]).path@) by {
                    assert(self.modules@[i] == before.modules@[i]);
                    if j < before.modules@.len() {
                        assert(self.modules@[j] == before.modules@[j]);
                    }
                }
                assert forall|i: int| 0 <= i < self.keys@.len() implies (#[trigger] self.keys@[i])@
                    == path_view(self.modules@[i].path@) by {
                    if i < before.keys@.len() {
                        assert(self.keys@[i] == before.keys@[i]);
                    }
                }
                assert(module@ =~= fresh_module::<S, U>(module.path@));
            }
        }
    }

    /// Keeps the symbols of the current module.
    fn set_symbols(&mut self, symbols: S)
        requires
            old(self).well_formed(),
            old(self)@.rest.len() > 0,
            old(self)@.modules.contains_key(old(self)@.key()),
        ensures
            final(self).well_formed(),
            final(self)@.modules.contains_key(final(self)@.key()),
            final(self)@ == old(self)@.with_current(
                ModuleView { module_symbols: Some(symbols), ..old(self)@.module() },
            ),
    {
        let ghost before = *self;
        let i = self.current_module();
        self.modules[i].module_symbols = Some(symbols);
        proof {
            let module = self.modules@[i as int];
            assert(self.modules@ =~= before.modules@.update(i as int, module));
            lemma_module_replaced(before.modules@, i as int, module);
        }
    }

    /// Keeps the unwind data of the current module.
    fn set_unwind_data(&mut self, unwind_data: ModuleUnwindData<U>)
        requires
            old(self).well_formed(),
            old(self)@.rest.len() > 0,
            old(self)@.modules.contains_key(old(self)@.key()),
        ensures
            final(self).well_formed(),
            final(self)@.modules.contains_key(final(self)@.key()),
            final(self)@ == old(self)@.with_current(
                ModuleView { unwind_data: Some(unwind_data), ..old(self)@.module() },
            ),
    {
        let ghost before = *self;
        let i = self.current_module();
        self.modules[i].unwind_data = Some(unwind_data);
        proof {
            let module = self.modules@[i as int];
            assert(self.modules@ =~= before.modules@.update(i as int, module));
            lemma_module_replaced(before.modules@, i as int, module);
        }
    }

    /// Notes that a process mapped the current module, and goes on.
    fn take_in(&mut self, load_bias: u64, unwind: Option<ProcessUnwindData>)
        requires
            old(self).well_formed(),
            old(self)@.rest.len() > 0,
            old(self)@.modules.contains_key(old(self)@.key()),
        ensures
            final(self).well_formed(),
            final(self)@ == old(self)@.taken_in(load_bias, unwind),
    {
        let ghost before = *self;
        let i = self.current_module();
        let pid = self.mappings[self.at].pid;
        let known = match self.modules[i].process_loaded_modules.remove(&pid) {
            Some(process) => process.process_unwind_data,
            None => None,
        };
        let process_unwind_data = if unwind.is_some() {
            unwind
        } else {
            known
        };
        self.modules[i].process_loaded_modules.insert(
            pid,
            ProcessLoadedModule { symbols_load_bias: Some(load_bias), process_unwind_data },
        );
        proof {
            let module = self.modules@[i as int];
            assert(self.modules@ =~= before.modules@.update(i as int, module));
            lemma_module_replaced(before.modules@, i as int, module);
            assert(module@ =~= mapped_by(before@.module(), pid, load_bias, unwind));
        }
        self.advance();
    }

    /// Shares unwind data that is already known, or goes on to load it.
    fn after_symbols(&mut self, load_bias: u64)
        requires
            old(self).well_formed(),
            old(self)@.rest.len() > 0,
            old(self)@.modules.contains_key(old(self)@.key()),
        ensures
            final(self).well_formed(),
            final(self)@ == old(self)@.after_symbols(load_bias),
    {
        let i = self.current_module();
        let base_svma = match &self.modules[i].unwind_data {
            Some(unwind_data) => Some(unwind_data.base_svma),
            None => None,
        };
        match base_svma {
            Some(base_svma) => {
                let mapping = &self.mappings[self.at];
                let unwind = ProcessUnwindData {
                    timestamp: Some(mapping.timestamp),
                    avma_range: mapping.avma_range.start..mapping.avma_range.end,
                    base_avma: base_svma.wrapping_add(load_bias),
                };
                assert(unwind == process_unwind_data(self@.mapping(), base_svma, load_bias));
                self.take_in(load_bias, Some(unwind));
            },
            None => {
                self.stage = ScanStage::UnwindData(load_bias);
            },
        }
    }

    /// Takes in what came of the request. A reply to anything else than what
    /// the scan needs changes nothing.
    pub fn answer(&mut self, reply: ScanReply<S, U>)
        requires
            old(self).inv(),
        ensures
            final(self).inv(),
            final(self)@.consistent(),
            final(self)@ == old(self)@.answered(reply),
    {
        if self.at == self.mappings.len() {
            return;
        }
        match (self.stage, reply) {
            (ScanStage::Identify, ScanReply::FileId(file)) => {
                if names_mapped_file(&self.mappings[self.at], file) {
                    self.stage = ScanStage::LoadBias;
                } else {
                    self.advance();
                }
            },
            (ScanStage::LoadBias, ScanReply::LoadBias(None)) => {
                self.advance();
            },
            (ScanStage::LoadBias, ScanReply::LoadBias(Some(load_bias))) => {
                self.enter();
                let i = self.current_module();
                if self.modules[i].module_symbols.is_none() {
                    self.stage = ScanStage::Symbols(load_bias);
                } else {
                    self.after_symbols(load_bias);
                }
            },
            (ScanStage::Symbols(load_bias), ScanReply::Symbols(symbols)) => {
                if let Some(symbols) = symbols {
                    self.set_symbols(symbols);
                }
                self.after_symbols(load_bias);
            },
            (ScanStage::UnwindData(load_bias), ScanReply::UnwindData(None)) => {
                self.take_in(load_bias, None);
            },
            (ScanStage::UnwindData(load_bias), ScanReply::UnwindData(Some((module, process)))) => {
                let timestamp = self.mappings[self.at].timestamp;
                let unwind = ProcessUnwindData {
                    timestamp: Some(timestamp),
                    avma_range: process.avma_range,
                    base_avma: process.base_avma,
                };
                self.set_unwind_data(module);
                self.take_in(load_bias, Some(unwind));
            },
            _ => {},
        }
    }

    /// The modules that the scan found, one for each meaning of a path.
    pub fn into_modules(self) -> (r: Vec<LoadedModule<S, U>>)
        requires
            self.inv(),
        ensures
            module_map(r@) == self@.modules,
            distinct_modules(r@),
    {
        self.modules
    }
}

/// Starts to turn the mappings of the event streams in a results folder into
/// module artifacts: the scan over them, by process and time, or nothing where
/// no mapping was recorded and there is nothing to save.
pub fn save_module_artifacts<S, U>(artifacts: Vec<Vec<MemtrackEvent>>) -> (r: Option<
    ModuleScan<S, U>,
>)
    ensures
        match r {
            None => all_mappings(artifact_views(artifacts@)).len() == 0,
            Some(scan) => {
                &&& all_mappings(artifact_views(artifacts@)).len() > 0
                &&& scan.inv()
                &&& scan@ == (ScanView::<S, U> {
                    rest: sorted_by(all_mappings(artifact_views(artifacts@)), mapping_key()),
                    stage: ScanStage::Identify,
                    modules: Map::empty(),
                })
            },
        },
{
    proof {
        law_sorted_is_in_order(all_mappings(artifact_views(artifacts@)), mapping_key());
    }
    let mappings = read_mappings(artifacts);
    if mappings.len() == 0 {
        assert(mapping_views(mappings@).len() == 0);
        return None;
    }
    assert(mapping_views(mappings@).len() > 0);
    Some(ModuleScan::new(mappings))
}

/// All that a scan can come to know about the file of a mapping.
pub struct FileFacts<S, U> {
    pub file: Option<FileId>,
    pub load_bias: Option<u64>,
    pub symbols: Option<S>,
    pub unwind_data: Option<(ModuleUnwindData<U>, ProcessUnwindData)>,
}

/// The modules after `mapping` was taken in, by what is known about its file.
pub open spec fn absorbed<S, U>(
    modules: Modules<S, U>,
    mapping: MappingView,
    facts: FileFacts<S, U>,
) -> Modules<S, U> {
    let unchanged = facts.file matches Some(f) && is_mapped_file(mapping.dev, mapping.ino, f);
    if !unchanged || facts.load_bias is None {
        modules
    } else {
        let load_bias = facts.load_bias->0;
        let key = path_view(mapping.path);
        let entered = with_module(modules, mapping.path)[key];
        let named = if entered.module_symbols is None {
            ModuleView { module_symbols: facts.symbols, ..entered }
        } else {
            entered
        };
        let (unwound, process) = match (named.unwind_data, facts.unwind_data) {
            (Some(known), _) => (
                named,
                Some(process_unwind_data(mapping, known.base_svma, load_bias)),
            ),
            (None, Some((loaded, process))) => (
                ModuleView { unwind_data: Some(loaded), ..named },
                Some(ProcessUnwindData { timestamp: Some(mapping.timestamp), ..process }),
            ),
            (None, None) => (named, None),
        };
        modules.insert(key, mapped_by(unwound, mapping.pid, load_bias, process))
    }
}

/// The scan after the replies that take it past the mapping at hand, each
/// given by `facts`.
pub open spec fn past_mapping<S, U>(scan: ScanView<S, U>, facts: FileFacts<S, U>) -> ScanView<S, U> {
    let identified = scan.answered(ScanReply::FileId(facts.file));
    if identified.stage is Identify {
        identified
    } else {
        let placed = identified.answered(ScanReply::LoadBias(facts.load_bias));
        let named = if placed.stage is Symbols {
            placed.answered(ScanReply::Symbols(facts.symbols))
        } else {
            placed
        };
        if named.stage is UnwindData {
            named.answered(ScanReply::UnwindData(facts.unwind_data))
        } else {
            named
        }
    }
}

/// Replies that tell the truth about the file of a mapping take a scan past
/// that mapping, with exactly the modules that these truths call for.
pub proof fn law_scan_absorbs_the_mapping<S, U>(scan: ScanView<S, U>, facts: FileFacts<S, U>)
    requires
        scan.rest.len() > 0,
        scan.stage is Identify,
    ensures
        past_mapping(scan, facts) == (ScanView {
            rest: scan.rest.skip(1),
            stage: ScanStage::Identify,
            modules: absorbed(scan.modules, scan.mapping(), facts),
        }),
{
    let identified = scan.answered(ScanReply::FileId(facts.file));
    if !(identified.stage is Identify) && facts.load_bias is Some {
        assert(past_mapping(scan, facts).modules =~= absorbed(
            scan.modules,
            scan.mapping(),
            facts,
        ));
    }
}

/// A reply keeps a scan consistent.
pub proof fn law_scan_stays_consistent<S, U>(scan: ScanView<S, U>, reply: ScanReply<S, U>)
    requires
        scan.consistent(),
    ensures
        scan.answered(reply).consistent(),
{
}

/// A file that is gone, or no longer the one that was mapped, contributes
/// nothing: the scan goes on to the next mapping with the modules it had.
pub proof fn law_a_changed_file_is_skipped<S, U>(scan: ScanView<S, U>, file: Option<FileId>)
    requires
        scan.rest.len() > 0,
        scan.stage is Identify,
        !(file matches Some(f) && is_mapped_file(scan.mapping().dev, scan.mapping().ino, f)),
    ensures
        scan.answered(ScanReply::FileId(file)) == scan.advanced(),
        scan.answered(ScanReply::FileId(file)).modules == scan.modules,
{
}

/// A module stays, and the symbols and the unwind data that were loaded for it
/// first are the ones it keeps.
pub proof fn law_modules_are_loaded_once<S, U>(
    scan: ScanView<S, U>,
    reply: ScanReply<S, U>,
    key: PathView,
)
    requires
        scan.consistent(),
        scan.modules.contains_key(key),
    ensures
        ({
            let after = scan.answered(reply).modules;
            &&& after.contains_key(key)
            &&& after[key].path == scan.modules[key].path
            &&& scan.modules[key].module_symbols is Some ==> after[key].module_symbols
                == scan.modules[key].module_symbols
            &&& scan.modules[key].unwind_data is Some ==> after[key].unwind_data
                == scan.modules[key].unwind_data
        }),
{
}

/// A mapping changes the module of its own path only, and in it what is known
/// of its own process only.
pub proof fn law_a_mapping_changes_its_own_process_only<S, U>(
    modules: Modules<S, U>,
    mapping: MappingView,
    facts: FileFacts<S, U>,
    key: PathView,
    pid: i32,
)
    requires
        modules.contains_key(key),
    ensures
        ({
            let after = absorbed(modules, mapping, facts);
            &&& after.contains_key(key)
            &&& key != path_view(mapping.path) ==> after[key] == modules[key]
            &&& pid != mapping.pid ==> after[key].processes.contains_key(pid)
                == modules[key].processes.contains_key(pid) && after[key].processes[pid]
                == modules[key].processes[pid]
        }),
{
}

/// A mapping whose file is unchanged and whose load bias is known leaves a
/// module for its path, with that load bias for its process; and where unwind
/// data was known before or could be loaded, with the time of the mapping.
pub proof fn law_a_mapping_is_noted<S, U>(
    modules: Modules<S, U>,
    mapping: MappingView,
    facts: FileFacts<S, U>,
    file: FileId,
    load_bias: u64,
)
    requires
        facts.file == Some(file),
        is_mapped_file(mapping.dev, mapping.ino, file),
        facts.load_bias == Some(load_bias),
    ensures
        ({
            let after = absorbed(modules, mapping, facts);
            let key = path_view(mapping.path);
            let module = after[key];
            &&& after.contains_key(key)
            &&& module.processes.contains_key(mapping.pid)
            &&& module.processes[mapping.pid].symbols_load_bias == Some(load_bias)
            &&& module.unwind_data is Some ==> {
                &&& module.processes[mapping.pid].process_unwind_data matches Some(p)
                &&& p.timestamp == Some(mapping.timestamp)
            }
        }),
{
}

/// Whether a mapping contributes: its file is unchanged, and its load bias is
/// known.
pub open spec fn is_accepted<S, U>(mapping: MappingView, facts: FileFacts<S, U>) -> bool {
    &&& facts.file matches Some(f)
    &&& is_mapped_file(mapping.dev, mapping.ino, f)
    &&& facts.load_bias is Some
}

/// The modules that the mappings loaded, by what is known about the file of
/// each.
pub open spec fn scanned<S, U>(
    mappings: Seq<MappingView>,
    facts: Seq<FileFacts<S, U>>,
) -> Modules<S, U>
    decreases mappings.len(),
{
    if mappings.len() == 0 {
        Map::empty()
    } else {
        absorbed(
            scanned(mappings.drop_last(), facts),
            mappings.last(),
            facts[mappings.len() - 1],
        )
    }
}

/// The scan after the replies that take it past as many mappings as there are
/// facts.
pub open spec fn past_mappings<S, U>(
    scan: ScanView<S, U>,
    facts: Seq<FileFacts<S, U>>,
) -> ScanView<S, U>
    decreases facts.len(),
{
    if facts.len() == 0 {
        scan
    } else {
        past_mapping(past_mappings(scan, facts.drop_last()), facts.last())
    }
}

proof fn lemma_scanned_by_known_facts<S, U>(
    mappings: Seq<MappingView>,
    a: Seq<FileFacts<S, U>>,
    b: Seq<FileFacts<S, U>>,
)
    requires
        forall|i: int| 0 <= i < mappings.len() ==> a[i] == b[i],
    ensures
        scanned(mappings, a) == scanned(mappings, b),
    decreases mappings.len(),
{
    if mappings.len() > 0 {
        lemma_scanned_by_known_facts(mappings.drop_last(), a, b);
    }
}

/// Replies that tell the truth about the files take a scan past its mappings one
/// by one, with exactly the modules that these truths call for.
pub proof fn law_scan_takes_in_every_mapping<S, U>(
    mappings: Seq<MappingView>,
    facts: Seq<FileFacts<S, U>>,
)
    requires
        facts.len() <= mappings.len(),
    ensures
        ({
            let start = ScanView {
                rest: mappings,
                stage: ScanStage::Identify,
                modules: Map::empty(),
            };
            past_mappings(start, facts) == (ScanView {
                rest: mappings.skip(facts.len() as int),
                stage: ScanStage::Identify,
                modules: scanned(mappings.take(facts.len() as int), facts),
            })
        }),
    decreases facts.len(),
{
    let start = ScanView { rest: mappings, stage: ScanStage::Identify, modules: Map::empty() };
    let n = facts.len() as int;
    if n == 0 {
        assert(mappings.skip(0) =~= mappings);
        assert(past_mappings(start, facts) =~= start);
    } else {
        let front = facts.drop_last();
        law_scan_takes_in_every_mapping(mappings, front);
        let before = past_mappings(start, front);
        assert(before.mapping() == mappings[n - 1]);
        law_scan_absorbs_the_mapping(before, facts.last());
        assert(before.rest.skip(1) =~= mappings.skip(n));
        assert(mappings.take(n).drop_last() =~= mappings.take(n - 1));
        lemma_scanned_by_known_facts(mappings.take(n - 1), front, facts);
    }
}

/// Whether the mapping at `i` is accepted and of the path that means `key`.
pub open spec fn is_taken<S, U>(
    mappings: Seq<MappingView>,
    facts: Seq<FileFacts<S, U>>,
    i: int,
    key: PathView,
) -> bool {
    &&& 0 <= i < mappings.len()
    &&& is_accepted(mappings[i], facts[i])
    &&& path_view(mappings[i].path) == key
}

/// Whether the mapping at `i` is accepted, of that path, and made by `pid`.
pub open spec fn is_taken_by<S, U>(
    mappings: Seq<MappingView>,
    facts: Seq<FileFacts<S, U>>,
    i: int,
    key: PathView,
    pid: i32,
) -> bool {
    is_taken(mappings, facts, i, key) && mappings[i].pid == pid
}

/// The modules of a list of mappings are those of the accepted paths, and each
/// has the processes that made an accepted mapping of it.
pub proof fn law_modules_are_the_accepted_paths<S, U>(
    mappings: Seq<MappingView>,
    facts: Seq<FileFacts<S, U>>,
    key: PathView,
    pid: i32,
)
    ensures
        ({
            let modules = scanned(mappings, facts);
            &&& modules.contains_key(key) <==> exists|i: int| is_taken(mappings, facts, i, key)
            &&& modules.contains_key(key) && modules[key].processes.contains_key(pid)
                <==> exists|i: int| is_taken_by(mappings, facts, i, key, pid)
        }),
    decreases mappings.len(),
{
    if mappings.len() > 0 {
        let front = mappings.drop_last();
        let last = mappings.len() - 1;
        law_modules_are_the_accepted_paths(front, facts, key, pid);
        assert forall|i: int| is_taken(front, facts, i, key) implies is_taken(
            mappings,
            facts,
            i,
            key,
        ) by {}
        assert forall|i: int| is_taken_by(front, facts, i, key, pid) implies is_taken_by(
            mappings,
            facts,
            i,
            key,
            pid,
        ) by {}
        if exists|i: int| is_taken(mappings, facts, i, key) {
            let i = choose|i: int| is_taken(mappings, facts, i, key);
            assert(i < last ==> is_taken(front, facts, i, key));
        }
        if exists|i: int| is_taken_by(mappings, facts, i, key, pid) {
            let i = choose|i: int| is_taken_by(mappings, facts, i, key, pid);
            assert(i < last ==> is_taken_by(front, facts, i, key, pid));
        }
        if exists|i: int| is_taken(front, facts, i, key) {
            let i = choose|i: int| is_taken(front, facts, i, key);
            assert(is_taken(mappings, facts, i, key));
        }
        if exists|i: int| is_taken_by(front, facts, i, key, pid) {
            let i = choose|i: int| is_taken_by(front, facts, i, key, pid);
            assert(is_taken_by(mappings, facts, i, key, pid));
        }
        assert(is_taken(mappings, facts, last, key) <==> is_accepted(
            mappings.last(),
            facts[last],
        ) && path_view(mappings.last().path) == key);
        assert(is_taken_by(mappings, facts, last, key, pid) <==> is_taken(
            mappings,
            facts,
            last,
            key,
        ) && mappings.last().pid == pid);
    }
}

/// Where a module's unwind data is not known, no process's is.
proof fn lemma_no_process_without_module<S, U>(
    mappings: Seq<MappingView>,
    facts: Seq<FileFacts<S, U>>,
    key: PathView,
    pid: i32,
)
    ensures
        ({
            let modules = scanned(mappings, facts);
            modules.contains_key(key) && modules[key].unwind_data is None
                && modules[key].processes.contains_key(pid)
                ==> modules[key].processes[pid].process_unwind_data is None
        }),
    decreases mappings.len(),
{
    if mappings.len() > 0 {
        lemma_no_process_without_module(mappings.drop_last(), facts, key, pid);
    }
}

/// How the process of the mapping at `i` unwinds through its module, by that
/// mapping: with the module's unwind data where it was known by then, and with
/// what could be loaded otherwise; at the time of the mapping in both cases.
pub open spec fn unwinding_from<S, U>(
    mappings: Seq<MappingView>,
    facts: Seq<FileFacts<S, U>>,
    i: int,
) -> Option<ProcessUnwindData> {
    let before = scanned(mappings.take(i), facts);
    let key = path_view(mappings[i].path);
    let known = if before.contains_key(key) {
        before[key].unwind_data
    } else {
        None
    };
    match (known, facts[i].unwind_data) {
        (Some(module), _) => Some(
            process_unwind_data(mappings[i], module.base_svma, facts[i].load_bias->0),
        ),
        (None, Some((_, process))) => Some(
            ProcessUnwindData { timestamp: Some(mappings[i].timestamp), ..process },
        ),
        (None, None) => None,
    }
}

/// Of one path and one process the last accepted mapping decides: its load bias
/// stands, and it says how the process unwinds, at its time.
pub proof fn law_the_last_mapping_decides<S, U>(
    mappings: Seq<MappingView>,
    facts: Seq<FileFacts<S, U>>,
    i: int,
    key: PathView,
    pid: i32,
)
    requires
        is_taken_by(mappings, facts, i, key, pid),
        forall|j: int| i < j ==> !is_taken_by(mappings, facts, j, key, pid),
    ensures
        ({
            let modules = scanned(mappings, facts);
            let process = modules[key].processes[pid];
            &&& modules.contains_key(key)
            &&& modules[key].processes.contains_key(pid)
            &&& process.symbols_load_bias == facts[i].load_bias
            &&& process.process_unwind_data == unwinding_from(mappings, facts, i)
            &&& process.process_unwind_data matches Some(unwinding) ==> unwinding.timestamp == Some(
                mappings[i].timestamp,
            )
        }),
    decreases mappings.len(),
{
    let front = mappings.drop_last();
    let last = mappings.len() - 1;
    if i == last {
        assert(mappings.take(i) =~= front);
        lemma_no_process_without_module(front, facts, key, pid);
    } else {
        assert(is_taken_by(front, facts, i, key, pid));
        assert forall|j: int| i < j implies !is_taken_by(front, facts, j, key, pid) by {
            assert(!is_taken_by(mappings, facts, j, key, pid));
        }
        law_the_last_mapping_decides(front, facts, i, key, pid);
        assert(front.take(i) =~= mappings.take(i));
        assert(!is_taken_by(mappings, facts, last, key, pid));
    }
}

/// Of one path the first accepted mapping gives the module its path.
pub proof fn law_the_first_mapping_names_the_module<S, U>(
    mappings: Seq<MappingView>,
    facts: Seq<FileFacts<S, U>>,
    i: int,
    key: PathView,
)
    requires
        is_taken(mappings, facts, i, key),
        forall|j: int| j < i ==> !is_taken(mappings, facts, j, key),
    ensures
        scanned(mappings, facts)[key].path == mappings[i].path,
    decreases mappings.len(),
{
    let front = mappings.drop_last();
    law_modules_are_the_accepted_paths(front, facts, key, 0);
    if i < front.len() {
        assert(is_taken(front, facts, i, key));
        assert forall|j: int| j < i implies !is_taken(front, facts, j, key) by {
            assert(!is_taken(mappings, facts, j, key));
        }
        law_the_first_mapping_names_the_module(front, facts, i, key);
    } else {
        assert forall|j: int| !is_taken(front, facts, j, key) by {
            assert(is_taken(front, facts, j, key) ==> is_taken(mappings, facts, j, key));
        }
    }
}

/// Where no accepted mapping of a path gave symbols, its module has none.
pub proof fn law_no_symbols_from_nowhere<S, U>(
    mappings: Seq<MappingView>,
    facts: Seq<FileFacts<S, U>>,
    key: PathView,
)
    requires
        scanned(mappings, facts).contains_key(key),
        forall|j: int| #[trigger] is_taken(mappings, facts, j, key) ==> facts[j].symbols is None,
    ensures
        scanned(mappings, facts)[key].module_symbols is None,
    decreases mappings.len(),
{
    if mappings.len() > 0 {
        let front = mappings.drop_last();
        let last = mappings.len() - 1;
        assert forall|j: int| #[trigger] is_taken(front, facts, j, key) implies facts[j].symbols
            is None by {
            assert(is_taken(mappings, facts, j, key));
        }
        if scanned(front, facts).contains_key(key) {
            law_no_symbols_from_nowhere(front, facts, key);
        }
        assert(is_taken(mappings, facts, last, key) <==> is_accepted(
            mappings.last(),
            facts[last],
        ) && path_view(mappings.last().path) == key);
    }
}

/// Of one path the first accepted mapping whose file gave symbols gives the
/// module its symbols.
pub proof fn law_the_first_symbols_stand<S, U>(
    mappings: Seq<MappingView>,
    facts: Seq<FileFacts<S, U>>,
    i: int,
    key: PathView,
)
    requires
        is_taken(mappings, facts, i, key),
        facts[i].symbols is Some,
        forall|j: int|
            j < i && #[trigger] is_taken(mappings, facts, j, key) ==> facts[j].symbols is None,
    ensures
        scanned(mappings, facts)[key].module_symbols == facts[i].symbols,
    decreases mappings.len(),
{
    let front = mappings.drop_last();
    assert forall|j: int| #[trigger] is_taken(front, facts, j, key) implies is_taken(
        mappings,
        facts,
        j,
        key,
    ) by {}
    if i < front.len() {
        assert(is_taken(front, facts, i, key));
        law_the_first_symbols_stand(front, facts, i, key);
        law_modules_are_the_accepted_paths(front, facts, key, 0);
    } else if scanned(front, facts).contains_key(key) {
        law_no_symbols_from_nowhere(front, facts, key);
    }
}

/// Where no accepted mapping of a path gave unwind data, its module has none.
pub proof fn law_no_unwind_data_from_nowhere<S, U>(
    mappings: Seq<MappingView>,
    facts: Seq<FileFacts<S, U>>,
    key: PathView,
)
    requires
        scanned(mappings, facts).contains_key(key),
        forall|j: int|
            #[trigger] is_taken(mappings, facts, j, key) ==> facts[j].unwind_data is None,
    ensures
        scanned(mappings, facts)[key].unwind_data is None,
    decreases mappings.len(),
{
    if mappings.len() > 0 {
        let front = mappings.drop_last();
        let last = mappings.len() - 1;
        assert forall|j: int| #[trigger] is_taken(front, facts, j, key) implies facts[j].unwind_data
            is None by {
            assert(is_taken(mappings, facts, j, key));
        }
        if scanned(front, facts).contains_key(key) {
            law_no_unwind_data_from_nowhere(front, facts, key);
        }
        assert(is_taken(mappings, facts, last, key) <==> is_accepted(
            mappings.last(),
            facts[last],
        ) && path_view(mappings.last().path) == key);
    }
}

/// Of one path the first accepted mapping whose file gave unwind data gives the
/// module its unwind data.
pub proof fn law_the_first_unwind_data_stands<S, U>(
    mappings: Seq<MappingView>,
    facts: Seq<FileFacts<S, U>>,
    i: int,
    key: PathView,
)
    requires
        is_taken(mappings, facts, i, key),
        facts[i].unwind_data is Some,
        forall|j: int|
            j < i && #[trigger] is_taken(mappings, facts, j, key) ==> facts[j].unwind_data is None,
    ensures
        scanned(mappings, facts)[key].unwind_data == Some((facts[i].unwind_data->0).0),
    decreases mappings.len(),
{
    let front = mappings.drop_last();
    assert forall|j: int| #[trigger] is_taken(front, facts, j, key) implies is_taken(
        mappings,
        facts,
        j,
        key,
    ) by {}
    if i < front.len() {
        assert(is_taken(front, facts, i, key));
        law_the_first_unwind_data_stands(front, facts, i, key);
        law_modules_are_the_accepted_paths(front, facts, key, 0);
    } else if scanned(front, facts).contains_key(key) {
        law_no_unwind_data_from_nowhere(front, facts, key);
    }
}

/// Where an accepted mapping finds the unwind data of its module known, its
/// process unwinds over exactly the mapped range, and the module's base address
/// moves by the load bias: the two sums agree over the integers, but for a carry
/// out of 64 bits.
pub proof fn law_known_unwind_data_moves_by_the_load_bias<S, U>(
    modules: Modules<S, U>,
    mapping: MappingView,
    facts: FileFacts<S, U>,
    unwind_data: ModuleUnwindData<U>,
)
    requires
        is_accepted(mapping, facts),
        modules.contains_key(path_view(mapping.path)),
        modules[path_view(mapping.path)].unwind_data == Some(unwind_data),
    ensures
        ({
            let after = absorbed(modules, mapping, facts)[path_view(mapping.path)];
            let sum = unwind_data.base_svma + facts.load_bias->0;
            &&& after.processes.contains_key(mapping.pid)
            &&& after.processes[mapping.pid].symbols_load_bias == facts.load_bias
            &&& after.processes[mapping.pid].process_unwind_data matches Some(p)
            &&& p.timestamp == Some(mapping.timestamp)
            &&& p.avma_range.start == mapping.start
            &&& p.avma_range.end == mapping.end
            &&& p.base_avma == sum || p.base_avma == sum - 0x1_0000_0000_0000_0000
            &&& sum <= 0xffff_ffff_ffff_ffff ==> p.base_avma == sum
        }),
{
}

/// Where an accepted mapping is the first to have unwind data loaded, its
/// process gets what was loaded, range and base address untouched, with the time
/// of the mapping; and the module keeps the loaded data.
pub proof fn law_loaded_unwind_data_is_kept<S, U>(
    modules: Modules<S, U>,
    mapping: MappingView,
    facts: FileFacts<S, U>,
    module: ModuleUnwindData<U>,
    process: ProcessUnwindData,
)
    requires
        is_accepted(mapping, facts),
        modules.contains_key(path_view(mapping.path))
            ==> modules[path_view(mapping.path)].unwind_data is None,
        facts.unwind_data == Some((module, process)),
    ensures
        ({
            let after = absorbed(modules, mapping, facts)[path_view(mapping.path)];
            &&& after.unwind_data == Some(module)
            &&& after.processes.contains_key(mapping.pid)
            &&& after.processes[mapping.pid].process_unwind_data matches Some(p)
            &&& p.timestamp == Some(mapping.timestamp)
            &&& p.avma_range == process.avma_range
            &&& p.base_avma == process.base_avma
        }),
{
}

/// Where unwind data is neither known nor loaded, the process keeps what it had.
pub proof fn law_a_failed_load_keeps_what_was_known<S, U>(
    modules: Modules<S, U>,
    mapping: MappingView,
    facts: FileFacts<S, U>,
)
    requires
        is_accepted(mapping, facts),
        facts.unwind_data is None,
        modules.contains_key(path_view(mapping.path))
            ==> modules[path_view(mapping.path)].unwind_data is None,
    ensures
        ({
            let key = path_view(mapping.path);
            let after = absorbed(modules, mapping, facts)[key];
            let had = modules.contains_key(key) && modules[key].processes.contains_key(mapping.pid);
            &&& after.unwind_data is None
            &&& after.processes[mapping.pid].process_unwind_data == if had {
                modules[key].processes[mapping.pid].process_unwind_data
            } else {
                None
            }
        }),
{
}

/// A mapping is accepted if its file is there, has the recorded device and
/// inode, and its load bias can be computed; the modules change only then.
pub proof fn law_only_accepted_mappings_change_anything<S, U>(
    modules: Modules<S, U>,
    mapping: MappingView,
    facts: FileFacts<S, U>,
)
    ensures
        is_accepted(mapping, facts) <==> {
            &&& facts.load_bias is Some
            &&& facts.file is Some
            &&& mapping.dev as int / 0x10_0000 == device_major((facts.file->0).dev)
            &&& mapping.dev as int % 0x10_0000 == device_minor((facts.file->0).dev)
            &&& mapping.ino == (facts.file->0).ino
        },
        !is_accepted(mapping, facts) ==> absorbed(modules, mapping, facts) == modules,
        is_accepted(mapping, facts) ==> absorbed(modules, mapping, facts).contains_key(
            path_view(mapping.path),
        ),
{
    if let Some(file) = facts.file {
        law_device_and_inode_must_agree(mapping.dev, mapping.ino, file);
    }
}

/// A path is read part by part, for paths of every length: one without a slash
/// is itself, a slash in front starts it at the root, and a further part behind a
/// slash is a further component, unless it is empty or a `.`.
pub proof fn law_a_path_is_read_part_by_part(path: Seq<char>, part: Seq<char>)
    requires
        !part.contains('/'),
    ensures
        path_view(part) == (PathView {
            rooted: false,
            parts: if part.len() == 0 {
                Seq::empty()
            } else {
                seq![part]
            },
        }),
        path.len() == 0 ==> path_view(path.push('/') + part) == (PathView {
            rooted: true,
            parts: if part.len() == 0 || part == seq!['.'] {
                Seq::empty()
            } else {
                seq![part]
            },
        }),
        path.len() > 0 ==> path_view(path.push('/') + part) == (PathView {
            rooted: path[0] == '/',
            parts: if part.len() == 0 || part == seq!['.'] {
                path_view(path).parts
            } else {
                path_view(path).parts.push(part)
            },
        }),
{
    let slash = seq!['/'];
    assert(slash[0] == '/');
    assert forall|i: int| 0 <= i < part.len() implies !slash.contains(#[trigger] part[i]) by {
        assert(part.contains(part[i]));
    }
    lemma_split_whole(part, slash);
    lemma_split_is_nonempty(path, slash);
    let alone = seq![part];
    if part.len() > 0 {
        assert(part.contains(part[0]));
    }
    reveal_with_fuel(components, 3);
    assert(components(false, alone, 1) =~= path_view(part).parts);
    assert(path_view(part).parts =~= if part.len() == 0 {
        Seq::empty()
    } else {
        seq![part]
    });
    let whole = path.push('/') + part;
    lemma_split_join(path, '/', part, slash);
    let before = split(path, slash);
    let after = split(whole, slash);
    let n = before.len() as int;
    assert(after =~= before.push(part));
    assert(whole[0] == if path.len() > 0 {
        path[0]
    } else {
        '/'
    });
    let rooted = path_view(whole).rooted;
    lemma_same_components(rooted, before, after, n);
    assert(components(rooted, after, n + 1) =~= if part.len() == 0 || part == seq!['.'] {
        components(rooted, before, n)
    } else {
        components(rooted, before, n).push(part)
    });
    if path.len() == 0 {
        assert(path =~= Seq::empty());
        assert(before =~= seq![Seq::<char>::empty()]);
        assert(components(rooted, before, 1) =~= Seq::empty());
        assert(Seq::<Seq<char>>::empty().push(part) =~= seq![part]);
    }
}

proof fn lemma_same_components(
    rooted: bool,
    a: Seq<Seq<char>>,
    b: Seq<Seq<char>>,
    n: int,
)
    requires
        0 <= n <= a.len(),
        n <= b.len(),
        forall|i: int| 0 <= i < n ==> a[i] == b[i],
    ensures
        components(rooted, a, n) == components(rooted, b, n),
    decreases n,
{
    if n > 0 {
        lemma_same_components(rooted, a, b, n - 1);
    }
}

/// A module shows all that it holds, and a list of modules has each of them
/// under the meaning of its path, and nothing else.
pub proof fn law_modules_show_what_they_hold<S, U>(modules: Seq<LoadedModule<S, U>>, i: int)
    requires
        distinct_modules(modules),
        0 <= i < modules.len(),
    ensures
        ({
            let shown = module_map(modules)[path_view(modules[i].path@)];
            &&& module_map(modules).contains_key(path_view(modules[i].path@))
            &&& shown.path == modules[i].path@
            &&& shown.module_symbols == modules[i].module_symbols
            &&& shown.unwind_data == modules[i].unwind_data
            &&& shown.processes == modules[i].process_loaded_modules@
        }),
        forall|key: PathView| #[trigger]
            module_map(modules).contains_key(key) ==> exists|j: int|
                0 <= j < modules.len() && path_view((#[trigger] modules[j]).path@) == key,
{
    lemma_module_of_index(modules, i);
    assert forall|key: PathView| #[trigger] module_map(modules).contains_key(key) implies exists|
        j: int,
    |
        0 <= j < modules.len() && path_view((#[trigger] modules[j]).path@) == key by {
        if forall|j: int| 0 <= j < modules.len() ==> path_view((#[trigger] modules[j]).path@) != key {
            lemma_no_such_module(modules, key);
        }
    }
}

} // verus!
