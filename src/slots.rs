use vstd::prelude::*;

use crate::catalog::{generate_model_id, model_id, ModelEntry};
use crate::decoder::LlamaError;

verus! {

/// Lifecycle state of a model slot.
#[derive(Debug, Clone, Copy, PartialEq, Eq, Structural)]
pub enum ModelStatus {
    Loading,
    Ready,
    Unloading,
}

/// A loaded model as the table hands it out. `handle` is the key under
/// which the caller keeps the decoder model and its context.
#[derive(Debug, Clone)]
pub struct LoadedModel {
    pub id: String,
    pub path: String,
    pub handle: u64,
}

impl LoadedModel {
    /// A copy of this reference.
    pub fn duplicate(&self) -> (r: LoadedModel)
        ensures
            r@ == self@,
    {
        LoadedModel { id: self.id.clone(), path: self.path.clone(), handle: self.handle }
    }
}

/// Mathematical form of a loaded model: id, path and handle.
pub struct LoadedView {
    pub id: Seq<char>,
    pub path: Seq<char>,
    pub handle: u64,
}

impl View for LoadedModel {
    type V = LoadedView;

    open spec fn view(&self) -> LoadedView {
        LoadedView { id: self.id@, path: self.path@, handle: self.handle }
    }
}

/// What the table shows of one slot.
#[derive(Debug, Clone)]
pub struct SlotInfo {
    pub id: String,
    pub path: String,
    pub status: ModelStatus,
    /// Last use, in milliseconds on the table's clock.
    pub last_used: u64,
}

/// Settings of the model table.
#[derive(Debug, Clone, Copy)]
pub struct ModelManagerConfig {
    /// Most models loaded at once (0: no limit).
    pub max_models: usize,
    /// Seconds of disuse after which a model is unloaded (0: never).
    pub idle_timeout_secs: u64,
    /// Layers to offload to the GPU when a model is loaded on demand (-1: all).
    pub default_n_gpu_layers: i32,
    /// Context size when a model is loaded on demand (0: the model's own).
    pub default_ctx_size: u32,
}

impl Default for ModelManagerConfig {
    fn default() -> (r: ModelManagerConfig)
        ensures
            r.max_models == 4,
            r.idle_timeout_secs == 0,
            r.default_n_gpu_layers == -1,
            r.default_ctx_size == 4096,
    {
        ModelManagerConfig {
            max_models: 4,
            idle_timeout_secs: 0,
            default_n_gpu_layers: -1,
            default_ctx_size: 4096,
        }
    }
}

/// One slot of the table.
#[derive(Debug)]
pub struct ModelSlot {
    pub id: String,
    pub status: ModelStatus,
    pub loaded: Option<LoadedModel>,
    /// Last use, in milliseconds on the table's clock.
    pub last_used: u64,
    /// References handed out and not yet released.
    pub pins: u64,
}

/// Mathematical form of a slot.
pub struct SlotView {
    pub id: Seq<char>,
    pub status: ModelStatus,
    pub loaded: Option<LoadedView>,
    pub last_used: u64,
    pub pins: u64,
}

impl View for ModelSlot {
    type V = SlotView;

    open spec fn view(&self) -> SlotView {
        SlotView {
            id: self.id@,
            status: self.status,
            loaded: match self.loaded {
                Some(m) => Some(m@),
                None => None,
            },
            last_used: self.last_used,
            pins: self.pins,
        }
    }
}

pub open spec fn slots_view(v: Seq<ModelSlot>) -> Seq<SlotView> {
    v.map_values(|s: ModelSlot| s@)
}

/// Whether a slot takes room: it is ready or loading.
pub open spec fn occupies(s: SlotView) -> bool {
    s.status == ModelStatus::Ready || s.status == ModelStatus::Loading
}

/// Whether a slot may be evicted: ready, with no reference out.
pub open spec fn evictable(s: SlotView) -> bool {
    s.status == ModelStatus::Ready && s.pins == 0
}

/// Whether a slot is ready and held by some reference.
pub open spec fn pinned(s: SlotView) -> bool {
    s.status == ModelStatus::Ready && s.pins > 0
}

/// Number of slots of `s` that satisfy `p`.
pub open spec fn count(s: Seq<SlotView>, p: spec_fn(SlotView) -> bool) -> nat
    decreases s.len(),
{
    if s.len() == 0 {
        0
    } else {
        count(s.drop_last(), p) + if p(s.last()) { 1nat } else { 0nat }
    }
}

pub open spec fn is_occupied() -> spec_fn(SlotView) -> bool {
    |s: SlotView| occupies(s)
}

pub open spec fn is_loading() -> spec_fn(SlotView) -> bool {
    |s: SlotView| s.status == ModelStatus::Loading
}

pub open spec fn is_ready() -> spec_fn(SlotView) -> bool {
    |s: SlotView| s.status == ModelStatus::Ready
}

pub open spec fn is_pinned() -> spec_fn(SlotView) -> bool {
    |s: SlotView| pinned(s)
}

/// Well-formedness of a table's slots.
pub open spec fn slots_wf(s: Seq<SlotView>) -> bool {
    &&& forall|i: int, j: int| 0 <= i < j < s.len() ==> s[i].id != s[j].id
    &&& forall|i: int| 0 <= i < s.len() ==> (#[trigger] s[i]).status != ModelStatus::Unloading
    &&& forall|i: int| 0 <= i < s.len() ==> ((#[trigger] s[i]).status == ModelStatus::Ready <==> s[i].loaded is Some)
    &&& forall|i: int| 0 <= i < s.len() ==> ((#[trigger] s[i]).loaded matches Some(m) ==> m.id == s[i].id)
    &&& forall|i: int| 0 <= i < s.len() ==> ((#[trigger] s[i]).status == ModelStatus::Loading ==> s[i].pins == 0)
    &&& forall|i: int, j: int|
        0 <= i < s.len() && 0 <= j < s.len() && s[i].status == ModelStatus::Loading && s[j].status
            == ModelStatus::Loading ==> i == j
}

/// Index of the slot with id `id`.
pub open spec fn index_of(s: Seq<SlotView>, id: Seq<char>) -> Option<int> {
    if exists|i: int| 0 <= i < s.len() && s[i].id == id {
        Some(choose|i: int| 0 <= i < s.len() && s[i].id == id)
    } else {
        None
    }
}

/// The slot that eviction takes next: evictable, least recently used, and
/// first in table order among equals.
pub open spec fn is_victim(s: Seq<SlotView>, i: int) -> bool {
    &&& 0 <= i < s.len()
    &&& evictable(s[i])
    &&& forall|j: int| 0 <= j < s.len() && evictable(s[j]) ==> s[i].last_used <= s[j].last_used
    &&& forall|j: int| 0 <= j < i && evictable(s[j]) ==> s[i].last_used < s[j].last_used
}

pub open spec fn victim(s: Seq<SlotView>) -> Option<int> {
    if exists|i: int| is_victim(s, i) {
        Some(choose|i: int| is_victim(s, i))
    } else {
        None
    }
}

/// Slots left after eviction for a new load under the limit `max`: while
/// at least `max` slots take room, remove the victim; stop when there is
/// none.
pub open spec fn evict_for_load(s: Seq<SlotView>, max: nat) -> Seq<SlotView>
    decreases s.len(),
{
    if max == 0 || count(s, is_occupied()) < max {
        s
    } else {
        match victim(s) {
            Some(i) => if 0 <= i < s.len() {
                evict_for_load(s.remove(i), max)
            } else {
                s
            },
            None => s,
        }
    }
}

pub proof fn lemma_count_push(s: Seq<SlotView>, p: spec_fn(SlotView) -> bool, x: SlotView)
    ensures
        count(s.push(x), p) == count(s, p) + if p(x) { 1nat } else { 0nat },
{
    assert(s.push(x).drop_last() =~= s);
}

pub proof fn lemma_count_remove(s: Seq<SlotView>, p: spec_fn(SlotView) -> bool, i: int)
    requires
        0 <= i < s.len(),
    ensures
        count(s, p) == count(s.remove(i), p) + if p(s[i]) { 1nat } else { 0nat },
    decreases s.len(),
{
    if i == s.len() - 1 {
        assert(s.remove(i) =~= s.drop_last());
    } else {
        lemma_count_remove(s.drop_last(), p, i);
        assert(s.remove(i).drop_last() =~= s.drop_last().remove(i));
        assert(s.remove(i).last() == s.last());
    }
}

pub proof fn lemma_count_update(s: Seq<SlotView>, p: spec_fn(SlotView) -> bool, i: int, x: SlotView)
    requires
        0 <= i < s.len(),
    ensures
        count(s.update(i, x), p) + (if p(s[i]) { 1nat } else { 0nat }) == count(s, p) + if p(x) { 1nat } else { 0nat },
{
    lemma_count_remove(s, p, i);
    lemma_count_remove(s.update(i, x), p, i);
    assert(s.update(i, x).remove(i) =~= s.remove(i));
}

pub proof fn lemma_count_none(s: Seq<SlotView>, p: spec_fn(SlotView) -> bool)
    requires
        forall|i: int| 0 <= i < s.len() ==> !p(#[trigger] s[i]),
    ensures
        count(s, p) == 0,
    decreases s.len(),
{
    if s.len() > 0 {
        lemma_count_none(s.drop_last(), p);
    }
}

pub proof fn lemma_wf_remove(s: Seq<SlotView>, i: int)
    requires
        slots_wf(s),
        0 <= i < s.len(),
    ensures
        slots_wf(s.remove(i)),
{
    let t = s.remove(i);
    assert forall|a: int| 0 <= a < t.len() implies t[a] == s[if a < i { a } else { a + 1 }] by {}
    assert forall|a: int, b: int| 0 <= a < b < t.len() implies t[a].id != t[b].id by {
        assert(t[a] == s[if a < i { a } else { a + 1 }]);
        assert(t[b] == s[if b < i { b } else { b + 1 }]);
    }
    assert forall|a: int, b: int|
        0 <= a < t.len() && 0 <= b < t.len() && t[a].status == ModelStatus::Loading && t[b].status
            == ModelStatus::Loading implies a == b by {
        assert(t[a] == s[if a < i { a } else { a + 1 }]);
        assert(t[b] == s[if b < i { b } else { b + 1 }]);
    }
}

/// Whether slot `i` holds id `id`, in a table with distinct ids.
pub proof fn lemma_index_of(s: Seq<SlotView>, id: Seq<char>, i: int)
    requires
        slots_wf(s),
        0 <= i < s.len(),
        s[i].id == id,
    ensures
        index_of(s, id) == Some(i),
{
    let j = choose|j: int| 0 <= j < s.len() && s[j].id == id;
    if j < i {
        assert(s[j].id != s[i].id);
    } else if i < j {
        assert(s[i].id != s[j].id);
    }
}

pub proof fn lemma_wf_update(s: Seq<SlotView>, i: int, x: SlotView)
    requires
        slots_wf(s),
        0 <= i < s.len(),
        x.id == s[i].id,
        x.status != ModelStatus::Unloading,
        x.status == ModelStatus::Ready <==> x.loaded is Some,
        x.loaded matches Some(m) ==> m.id == x.id,
        x.status == ModelStatus::Loading ==> x.pins == 0,
        x.status == ModelStatus::Loading ==> forall|j: int|
            0 <= j < s.len() && j != i ==> s[j].status != ModelStatus::Loading,
    ensures
        slots_wf(s.update(i, x)),
{
    let t = s.update(i, x);
    assert forall|a: int| 0 <= a < t.len() implies (#[trigger] t[a]).id == s[a].id by {}
}

pub proof fn lemma_wf_push(s: Seq<SlotView>, x: SlotView)
    requires
        slots_wf(s),
        index_of(s, x.id) is None,
        x.status != ModelStatus::Unloading,
        x.status == ModelStatus::Ready <==> x.loaded is Some,
        x.loaded matches Some(m) ==> m.id == x.id,
        x.status == ModelStatus::Loading ==> x.pins == 0,
        x.status == ModelStatus::Loading ==> forall|j: int|
            0 <= j < s.len() ==> s[j].status != ModelStatus::Loading,
    ensures
        slots_wf(s.push(x)),
{
    let t = s.push(x);
    assert forall|a: int, b: int| 0 <= a < b < t.len() implies t[a].id != t[b].id by {
        if b == s.len() {
            assert(s[a].id != x.id);
        }
    }
}

/// Ids of the ready slots, in table order.
pub open spec fn ready_ids(s: Seq<SlotView>) -> Seq<Seq<char>>
    decreases s.len(),
{
    if s.len() == 0 {
        Seq::empty()
    } else if s.last().status == ModelStatus::Ready {
        ready_ids(s.drop_last()).push(s.last().id)
    } else {
        ready_ids(s.drop_last())
    }
}

/// The slots of `s` that do not satisfy `p`, in order.
pub open spec fn remove_where(s: Seq<SlotView>, p: spec_fn(SlotView) -> bool) -> Seq<SlotView>
    decreases s.len(),
{
    if s.len() == 0 {
        Seq::empty()
    } else if p(s.last()) {
        remove_where(s.drop_last(), p)
    } else {
        remove_where(s.drop_last(), p).push(s.last())
    }
}

/// Ids of the slots of `s` that satisfy `p`, in order.
pub open spec fn ids_where(s: Seq<SlotView>, p: spec_fn(SlotView) -> bool) -> Seq<Seq<char>>
    decreases s.len(),
{
    if s.len() == 0 {
        Seq::empty()
    } else if p(s.last()) {
        ids_where(s.drop_last(), p).push(s.last().id)
    } else {
        ids_where(s.drop_last(), p)
    }
}

/// Ready slots with no reference out, unused for more than `timeout_secs`
/// seconds at time `now` (in milliseconds). None when the timeout is 0.
pub open spec fn idle(timeout_secs: u64, now: u64) -> spec_fn(SlotView) -> bool {
    |s: SlotView|
        timeout_secs > 0 && evictable(s) && s.last_used + timeout_secs * 1000 < now
}

/// The most recently used ready slot, first in table order among equals.
pub open spec fn is_mru(s: Seq<SlotView>, i: int) -> bool {
    &&& 0 <= i < s.len()
    &&& s[i].status == ModelStatus::Ready
    &&& forall|j: int| 0 <= j < s.len() && s[j].status == ModelStatus::Ready ==> s[j].last_used <= s[i].last_used
    &&& forall|j: int| 0 <= j < i && s[j].status == ModelStatus::Ready ==> s[j].last_used < s[i].last_used
}

pub open spec fn mru(s: Seq<SlotView>) -> Option<int> {
    if exists|i: int| is_mru(s, i) {
        Some(choose|i: int| is_mru(s, i))
    } else {
        None
    }
}

/// Hand out a reference to slot `i` if it is ready: the table after it,
/// and the model handed out.
pub open spec fn take_ref(s: Seq<SlotView>, i: Option<int>) -> (Seq<SlotView>, Option<LoadedView>) {
    match i {
        Some(i) => if 0 <= i < s.len() && s[i].status == ModelStatus::Ready && s[i].pins < u64::MAX {
            (s.update(i, SlotView { pins: (s[i].pins + 1) as u64, ..s[i] }), s[i].loaded)
        } else {
            (s, None)
        },
        None => (s, None),
    }
}

/// Put slot `x` in place of the slot with its id, or at the end.
pub open spec fn put_slot(s: Seq<SlotView>, x: SlotView) -> Seq<SlotView> {
    match index_of(s, x.id) {
        Some(i) => s.update(i, x),
        None => s.push(x),
    }
}

/// The table without the slot with id `id`.
pub open spec fn drop_id(s: Seq<SlotView>, id: Seq<char>) -> Seq<SlotView> {
    match index_of(s, id) {
        Some(i) => s.remove(i),
        None => s,
    }
}

pub open spec fn opt_loaded(r: Option<LoadedModel>) -> Option<LoadedView> {
    match r {
        Some(m) => Some(m@),
        None => None,
    }
}

/// What `slot_info` reports of a slot.
pub open spec fn info_of(i: SlotInfo, s: SlotView) -> bool {
    &&& i.id@ == s.id
    &&& i.path@ == match s.loaded {
        Some(m) => m.path,
        None => Seq::empty(),
    }
    &&& i.status == s.status
    &&& i.last_used == s.last_used
}

/// Whether no slot was used after `now`: the table's clock does not go back.
pub open spec fn not_before(s: Seq<SlotView>, now: u64) -> bool {
    forall|i: int| 0 <= i < s.len() ==> (#[trigger] s[i]).last_used <= now
}

/// Whether the model `id` is ready to be handed out again.
pub open spec fn ready_for(s: Seq<SlotView>, id: Seq<char>) -> bool {
    index_of(s, id) matches Some(i) && s[i].status == ModelStatus::Ready && s[i].pins < u64::MAX
}

/// Whether some model is being loaded.
pub open spec fn has_loading(s: Seq<SlotView>) -> bool {
    exists|i: int| 0 <= i < s.len() && s[i].status == ModelStatus::Loading
}

/// Id under which a model file is loaded: its catalogue id.
pub open spec fn load_id(path: Seq<char>) -> Seq<char> {
    model_id(path)
}

pub open spec fn loading_slot(id: Seq<char>, now: u64) -> SlotView {
    SlotView { id, status: ModelStatus::Loading, loaded: None, last_used: now, pins: 0 }
}

pub open spec fn ready_slot(m: LoadedView, now: u64) -> SlotView {
    SlotView { id: m.id, status: ModelStatus::Ready, loaded: Some(m), last_used: now, pins: 1 }
}

/// ASCII letters folded to lower case, as code points.
pub open spec fn fold_ascii(c: char) -> u32 {
    if 'A' <= c && c <= 'Z' {
        (c as u32 + 32) as u32
    } else {
        c as u32
    }
}

/// Equality of texts up to ASCII case.
pub open spec fn eq_ignore_ascii_case(a: Seq<char>, b: Seq<char>) -> bool {
    a.len() == b.len() && forall|i: int| 0 <= i < a.len() ==> fold_ascii(#[trigger] a[i]) == fold_ascii(b[i])
}

/// Whether some catalogue entry has id `id` up to ASCII case.
pub open spec fn listed(available: Seq<ModelEntry>, id: Seq<char>) -> bool {
    exists|i: int| 0 <= i < available.len() && eq_ignore_ascii_case(available[i].id@, id)
}

/// Whether `path` is the path of the first entry with id `id` up to ASCII case.
pub open spec fn first_listed(available: Seq<ModelEntry>, id: Seq<char>, path: Seq<char>) -> bool {
    exists|i: int|
        0 <= i < available.len() && eq_ignore_ascii_case(available[i].id@, id) && path == available[i].path@
            && forall|k: int| 0 <= k < i ==> !eq_ignore_ascii_case(#[trigger] available[k].id@, id)
}

pub proof fn lemma_count_equiv(s: Seq<SlotView>, p: spec_fn(SlotView) -> bool, q: spec_fn(SlotView) -> bool)
    requires
        forall|i: int| 0 <= i < s.len() ==> p(#[trigger] s[i]) == q(s[i]),
    ensures
        count(s, p) == count(s, q),
    decreases s.len(),
{
    if s.len() > 0 {
        assert(p(s[s.len() - 1]) == q(s[s.len() - 1]));
        lemma_count_equiv(s.drop_last(), p, q);
    }
}

/// How a request to load a model begins.
#[derive(Debug)]
pub enum LoadStart {
    /// The model is ready already: here is a reference to it.
    Ready(LoadedModel),
    /// Another load is in flight; loads run one at a time.
    Busy,
    /// The slot `id` is now loading; the caller loads the model and then
    /// reports with `load_finish`. `evicted` lists the models evicted to
    /// make room.
    Proceed { id: String, evicted: Vec<String> },
}

/// What `ensure_loaded` asks of the caller.
#[derive(Debug)]
pub enum EnsureLoaded {
    /// A reference to a ready model.
    Ready(LoadedModel),
    /// Load the model file at `path` with these settings.
    Load { path: String, n_gpu_layers: i32, n_ctx: u32 },
}

/// The table of models: a slot per model id, with LRU eviction of models
/// that no reference holds.
pub struct ModelManager {
    slots: Vec<ModelSlot>,
    model_dirs: Vec<String>,
    config: ModelManagerConfig,
}

impl View for ModelManager {
    type V = Seq<SlotView>;

    closed spec fn view(&self) -> Seq<SlotView> {
        slots_view(self.slots@)
    }
}

impl ModelManager {
    pub closed spec fn dirs(&self) -> Seq<Seq<char>> {
        self.model_dirs@.map_values(|d: String| d@)
    }

    pub closed spec fn settings(&self) -> ModelManagerConfig {
        self.config
    }

    pub open spec fn wf(&self) -> bool {
        slots_wf(self@)
    }

    pub fn new(model_dirs: Vec<String>, config: ModelManagerConfig) -> (r: ModelManager)
        ensures
            r@ == Seq::<SlotView>::empty(),
            r.wf(),
            r.dirs() == model_dirs@.map_values(|d: String| d@),
            r.settings() == config,
    {
        let r = ModelManager { slots: Vec::new(), model_dirs, config };
        assert(r@ =~= Seq::<SlotView>::empty());
        r
    }

    pub fn config(&self) -> (r: &ModelManagerConfig)
        ensures
            *r == self.settings(),
    {
        &self.config
    }

    pub fn model_dirs(&self) -> (r: &Vec<String>)
        ensures
            r@.map_values(|d: String| d@) == self.dirs(),
    {
        &self.model_dirs
    }

    /// Add a directory to the scan list, unless it is there already.
    pub fn add_model_dir(&mut self, dir: String)
        ensures
            final(self)@ == old(self)@,
            final(self).settings() == old(self).settings(),
            final(self).dirs() == if old(self).dirs().contains(dir@) {
                old(self).dirs()
            } else {
                old(self).dirs().push(dir@)
            },
    {
        let ghost d0 = self.dirs();
        let mut i: usize = 0;
        while i < self.model_dirs.len()
            invariant
                i <= self.model_dirs.len(),
                d0 == self.dirs(),
                forall|k: int| 0 <= k < i ==> d0[k] != dir@,
            decreases self.model_dirs.len() - i,
        {
            if self.model_dirs[i] == dir {
                assert(d0[i as int] == dir@);
                return;
            }
            i = i + 1;
        }
        self.model_dirs.push(dir);
        assert(self.dirs() =~= d0.push(dir@));
    }

    /// Index of the slot with id `id`.
    fn find(&self, id: &String) -> (r: Option<usize>)
        requires
            self.wf(),
        ensures
            match r {
                Some(i) => i < self@.len() && index_of(self@, id@) == Some(i as int),
                None => index_of(self@, id@) is None,
            },
    {
        let mut i: usize = 0;
        while i < self.slots.len()
            invariant
                i <= self.slots.len(),
                self.wf(),
                forall|k: int| 0 <= k < i ==> self@[k].id != id@,
            decreases self.slots.len() - i,
        {
            assert(self@[i as int] == self.slots@[i as int]@);
            if self.slots[i].id == *id {
                proof {
                    lemma_index_of(self@, id@, i as int);
                }
                return Some(i);
            }
            i = i + 1;
        }
        None
    }

    /// Whether the model `id` is ready.
    pub fn is_loaded(&self, id: &str) -> (r: bool)
        requires
            self.wf(),
        ensures
            r == (index_of(self@, id@) matches Some(i) && self@[i].status == ModelStatus::Ready),
    {
        let key = String::from_str(id);
        match self.find(&key) {
            Some(i) => {
                assert(self@[i as int] == self.slots@[i as int]@);
                self.slots[i].status == ModelStatus::Ready
            },
            None => false,
        }
    }

    /// Number of ready models.
    pub fn loaded_count(&self) -> (r: usize)
        ensures
            r == count(self@, is_ready()),
    {
        let mut n: usize = 0;
        let mut i: usize = 0;
        while i < self.slots.len()
            invariant
                i <= self.slots.len(),
                n == count(self@.subrange(0, i as int), is_ready()),
                n <= i,
            decreases self.slots.len() - i,
        {
            assert(self@.subrange(0, i + 1).drop_last() =~= self@.subrange(0, i as int));
            assert(self@[i as int] == self.slots@[i as int]@);
            if self.slots[i].status == ModelStatus::Ready {
                n = n + 1;
            }
            i = i + 1;
        }
        assert(self@.subrange(0, i as int) =~= self@);
        n
    }

    /// Mark the model `id` as used at `now`.
    pub fn touch(&mut self, id: &str, now: u64)
        requires
            old(self).wf(),
            not_before(old(self)@, now),
        ensures
            final(self).wf(),
            final(self).dirs() == old(self).dirs(),
            final(self).settings() == old(self).settings(),
            final(self)@ == match index_of(old(self)@, id@) {
                Some(i) => old(self)@.update(i, SlotView { last_used: now, ..old(self)@[i] }),
                None => old(self)@,
            },
    {
        let key = String::from_str(id);
        match self.find(&key) {
            Some(i) => {
                let ghost v0 = self.slots@;
                let mut s = self.slots.remove(i);
                s.last_used = now;
                self.slots.insert(i, s);
                assert(self@ =~= slots_view(v0).update(i as int, s@));
                proof {
                    let t = self@;
                    assert forall|a: int| 0 <= a < t.len() implies (#[trigger] t[a]).id == slots_view(v0)[a].id
                        && t[a].status == slots_view(v0)[a].status && t[a].loaded == slots_view(v0)[a].loaded
                        && t[a].pins == slots_view(v0)[a].pins by {}
                }
            },
            None => {},
        }
    }

    /// Replace slot `i` by `x`.
    fn set_slot(&mut self, i: usize, x: ModelSlot)
        requires
            i < old(self)@.len(),
        ensures
            final(self)@ == old(self)@.update(i as int, x@),
            final(self).dirs() == old(self).dirs(),
            final(self).settings() == old(self).settings(),
    {
        let ghost v0 = self.slots@;
        let _old = self.slots.remove(i);
        self.slots.insert(i, x);
        assert(self@ =~= slots_view(v0).update(i as int, x@));
    }

    /// Remove slot `i`.
    fn drop_slot(&mut self, i: usize)
        requires
            i < old(self)@.len(),
        ensures
            final(self)@ == old(self)@.remove(i as int),
            final(self).dirs() == old(self).dirs(),
            final(self).settings() == old(self).settings(),
    {
        let ghost v0 = self.slots@;
        let _old = self.slots.remove(i);
        assert(self@ =~= slots_view(v0).remove(i as int));
    }

    /// Hand out a reference to slot `i` if it is ready.
    fn take_ref_at(&mut self, i: Option<usize>) -> (r: Option<LoadedModel>)
        requires
            old(self).wf(),
            i matches Some(k) ==> k < old(self)@.len(),
        ensures
            final(self).wf(),
            final(self).dirs() == old(self).dirs(),
            final(self).settings() == old(self).settings(),
            (final(self)@, opt_loaded(r)) == take_ref(old(self)@, match i {
                Some(k) => Some(k as int),
                None => None,
            }),
    {
        match i {
            Some(k) => {
                assert(self@[k as int] == self.slots@[k as int]@);
                if self.slots[k].status == ModelStatus::Ready && self.slots[k].pins < u64::MAX {
                    let m = match &self.slots[k].loaded {
                        Some(m) => m.duplicate(),
                        None => {
                            return None;
                        },
                    };
                    let x = ModelSlot {
                        id: self.slots[k].id.clone(),
                        status: self.slots[k].status,
                        loaded: Some(m.duplicate()),
                        last_used: self.slots[k].last_used,
                        pins: self.slots[k].pins + 1,
                    };
                    proof {
                        lemma_wf_update(self@, k as int, x@);
                    }
                    self.set_slot(k, x);
                    Some(m)
                } else {
                    None
                }
            },
            None => None,
        }
    }

    /// A reference to the model `id`, if it is ready. Each reference handed
    /// out holds the model against eviction until it is released.
    pub fn get_loaded(&mut self, id: &str) -> (r: Option<LoadedModel>)
        requires
            old(self).wf(),
        ensures
            final(self).wf(),
            final(self).dirs() == old(self).dirs(),
            final(self).settings() == old(self).settings(),
            (final(self)@, opt_loaded(r)) == take_ref(old(self)@, index_of(old(self)@, id@)),
    {
        let key = String::from_str(id);
        let i = self.find(&key);
        self.take_ref_at(i)
    }

    /// Index of the most recently used ready slot.
    fn find_mru(&self) -> (r: Option<usize>)
        requires
            self.wf(),
        ensures
            match r {
                Some(i) => i < self@.len() && mru(self@) == Some(i as int),
                None => mru(self@) is None,
            },
    {
        let mut best: Option<usize> = None;
        let mut i: usize = 0;
        while i < self.slots.len()
            invariant
                i <= self.slots.len(),
                match best {
                    Some(b) => b < i && self@[b as int].status == ModelStatus::Ready
                        && (forall|j: int| 0 <= j < i && self@[j].status == ModelStatus::Ready
                            ==> self@[j].last_used <= self@[b as int].last_used)
                        && (forall|j: int| 0 <= j < b && self@[j].status == ModelStatus::Ready
                            ==> self@[j].last_used < self@[b as int].last_used),
                    None => forall|j: int| 0 <= j < i ==> self@[j].status != ModelStatus::Ready,
                },
            decreases self.slots.len() - i,
        {
            assert(self@[i as int] == self.slots@[i as int]@);
            if self.slots[i].status == ModelStatus::Ready {
                match best {
                    Some(b) => {
                        assert(self@[b as int] == self.slots@[b as int]@);
                        if self.slots[i].last_used > self.slots[b].last_used {
                            best = Some(i);
                        }
                    },
                    None => {
                        best = Some(i);
                    },
                }
            }
            i = i + 1;
        }
        match best {
            Some(b) => {
                assert(is_mru(self@, b as int));
                assert forall|k: int| is_mru(self@, k) implies k == b by {
                    if k < b {
                        assert(self@[k].last_used < self@[b as int].last_used);
                    } else if b < k {
                        assert(self@[b as int].last_used < self@[k].last_used);
                    }
                }
            },
            None => {
                assert forall|k: int| !is_mru(self@, k) by {}
            },
        }
        best
    }

    /// A reference to the most recently used ready model, if any.
    pub fn get_any_loaded(&mut self) -> (r: Option<LoadedModel>)
        requires
            old(self).wf(),
        ensures
            final(self).wf(),
            final(self).dirs() == old(self).dirs(),
            final(self).settings() == old(self).settings(),
            (final(self)@, opt_loaded(r)) == take_ref(old(self)@, mru(old(self)@)),
    {
        let i = self.find_mru();
        self.take_ref_at(i)
    }

    /// The model `name` if given, else the most recently used one.
    pub fn resolve(&mut self, model_name: Option<&str>) -> (r: Option<LoadedModel>)
        requires
            old(self).wf(),
        ensures
            final(self).wf(),
            final(self).dirs() == old(self).dirs(),
            final(self).settings() == old(self).settings(),
            (final(self)@, opt_loaded(r)) == take_ref(
                old(self)@,
                match model_name {
                    Some(n) => index_of(old(self)@, n@),
                    None => mru(old(self)@),
                },
            ),
    {
        match model_name {
            Some(name) => self.get_loaded(name),
            None => self.get_any_loaded(),
        }
    }

    /// Give back a reference handed out earlier.
    pub fn release(&mut self, model: &LoadedModel)
        requires
            old(self).wf(),
        ensures
            final(self).wf(),
            final(self).dirs() == old(self).dirs(),
            final(self).settings() == old(self).settings(),
            final(self)@ == match index_of(old(self)@, model.id@) {
                Some(i) => if old(self)@[i].loaded == Some(model@) && old(self)@[i].pins > 0 {
                    old(self)@.update(i, SlotView { pins: (old(self)@[i].pins - 1) as u64, ..old(self)@[i] })
                } else {
                    old(self)@
                },
                None => old(self)@,
            },
    {
        match self.find(&model.id) {
            Some(k) => {
                assert(self@[k as int] == self.slots@[k as int]@);
                let same = match &self.slots[k].loaded {
                    Some(m) => m.handle == model.handle && m.path == model.path && m.id == model.id,
                    None => false,
                };
                if same && self.slots[k].pins > 0 {
                    let x = ModelSlot {
                        id: self.slots[k].id.clone(),
                        status: self.slots[k].status,
                        loaded: Some(model.duplicate()),
                        last_used: self.slots[k].last_used,
                        pins: self.slots[k].pins - 1,
                    };
                    proof {
                        lemma_wf_update(self@, k as int, x@);
                    }
                    self.set_slot(k, x);
                }
            },
            None => {},
        }
    }

    /// Unload the model `id`; whether there was such a slot.
    pub fn unload(&mut self, id: &str) -> (r: bool)
        requires
            old(self).wf(),
        ensures
            final(self).wf(),
            final(self).dirs() == old(self).dirs(),
            final(self).settings() == old(self).settings(),
            r == index_of(old(self)@, id@) is Some,
            final(self)@ == drop_id(old(self)@, id@),
    {
        let key = String::from_str(id);
        match self.find(&key) {
            Some(k) => {
                proof {
                    lemma_wf_remove(self@, k as int);
                }
                self.drop_slot(k);
                true
            },
            None => false,
        }
    }

    /// Unload every model.
    pub fn unload_all(&mut self)
        ensures
            final(self)@ == Seq::<SlotView>::empty(),
            final(self).wf(),
            final(self).dirs() == old(self).dirs(),
            final(self).settings() == old(self).settings(),
    {
        self.slots.clear();
        assert(self@ =~= Seq::<SlotView>::empty());
    }

    /// Ids of the ready models.
    pub fn loaded_model_ids(&self) -> (r: Vec<String>)
        ensures
            r@.map_values(|d: String| d@) == ready_ids(self@),
    {
        let mut out: Vec<String> = Vec::new();
        let mut i: usize = 0;
        assert(out@.map_values(|d: String| d@) =~= ready_ids(self@.subrange(0, 0)));
        while i < self.slots.len()
            invariant
                i <= self.slots.len(),
                out@.map_values(|d: String| d@) == ready_ids(self@.subrange(0, i as int)),
            decreases self.slots.len() - i,
        {
            assert(self@.subrange(0, i + 1).drop_last() =~= self@.subrange(0, i as int));
            assert(self@[i as int] == self.slots@[i as int]@);
            if self.slots[i].status == ModelStatus::Ready {
                let ghost o0 = out@;
                out.push(self.slots[i].id.clone());
                assert(out@.map_values(|d: String| d@) =~= o0.map_values(|d: String| d@).push(
                    self@[i as int].id,
                ));
            }
            i = i + 1;
        }
        assert(self@.subrange(0, i as int) =~= self@);
        out
    }

    /// What the table shows of each slot, in table order.
    pub fn slot_info(&self) -> (r: Vec<SlotInfo>)
        ensures
            r@.len() == self@.len(),
            forall|i: int| 0 <= i < r@.len() ==> info_of(#[trigger] r@[i], self@[i]),
    {
        let mut out: Vec<SlotInfo> = Vec::new();
        let mut i: usize = 0;
        while i < self.slots.len()
            invariant
                i <= self.slots.len(),
                out@.len() == i,
                forall|k: int| 0 <= k < i ==> info_of(#[trigger] out@[k], self@[k]),
            decreases self.slots.len() - i,
        {
            assert(self@[i as int] == self.slots@[i as int]@);
            let path = match &self.slots[i].loaded {
                Some(m) => m.path.clone(),
                None => String::new(),
            };
            out.push(
                SlotInfo {
                    id: self.slots[i].id.clone(),
                    path,
                    status: self.slots[i].status,
                    last_used: self.slots[i].last_used,
                },
            );
            i = i + 1;
        }
        out
    }


    /// Unload every ready model that no reference holds and that was last
    /// used more than `timeout_secs` seconds before `now` (milliseconds).
    /// Returns the ids unloaded. A timeout of 0 unloads nothing.
    pub fn sweep_idle(&mut self, timeout_secs: u64, now: u64) -> (r: Vec<String>)
        requires
            old(self).wf(),
        ensures
            final(self).wf(),
            final(self).dirs() == old(self).dirs(),
            final(self).settings() == old(self).settings(),
            final(self)@ == remove_where(old(self)@, idle(timeout_secs, now)),
            r@.map_values(|d: String| d@) == ids_where(old(self)@, idle(timeout_secs, now)),
    {
        let ghost s0 = self@;
        let ghost p = idle(timeout_secs, now);
        let mut kept: Vec<ModelSlot> = Vec::new();
        let mut gone: Vec<String> = Vec::new();
        let mut rest = Vec::new();
        std::mem::swap(&mut rest, &mut self.slots);
        let ghost mut k: int = 0;
        assert(s0.subrange(0, 0) =~= Seq::<SlotView>::empty());
        assert(slots_view(kept@) =~= remove_where(s0.subrange(0, 0), p));
        assert(gone@.map_values(|d: String| d@) =~= ids_where(s0.subrange(0, 0), p));
        assert(slots_view(rest@) =~= s0.subrange(0, s0.len() as int));
        while rest.len() > 0
            invariant
                0 <= k <= s0.len(),
                slots_view(rest@) == s0.subrange(k, s0.len() as int),
                slots_view(kept@) == remove_where(s0.subrange(0, k), p),
                gone@.map_values(|d: String| d@) == ids_where(s0.subrange(0, k), p),
                p == idle(timeout_secs, now),
                slots_wf(s0),
                slots_wf(slots_view(kept@)),
                forall|a: int| 0 <= a < kept@.len() ==> exists|b: int| 0 <= b < k && s0[b] == #[trigger] slots_view(kept@)[a],
            decreases rest.len(),
        {
            let ghost r0 = rest@;
            assert(slots_view(r0).len() == r0.len());
            assert(slots_view(r0)[0] == r0[0]@);
            let x = rest.remove(0);
            assert(x@ == s0[k]);
            assert(s0.subrange(0, k + 1).drop_last() =~= s0.subrange(0, k));
            assert(s0.subrange(0, k + 1).last() == s0[k]);
            assert(slots_view(rest@) =~= s0.subrange(k + 1, s0.len() as int)) by {
                assert forall|i: int| 0 <= i < rest@.len() implies slots_view(rest@)[i] == s0[k + 1 + i] by {
                    assert(rest@[i] == r0[i + 1]);
                    assert(slots_view(r0)[i + 1] == s0.subrange(k, s0.len() as int)[i + 1]);
                }
            }
            let is_idle = timeout_secs > 0 && x.status == ModelStatus::Ready && x.pins == 0
                && (x.last_used as u128) + (timeout_secs as u128) * 1000 < now as u128;
            assert(is_idle == p(x@));
            if is_idle {
                assert forall|a: int| 0 <= a < kept@.len() implies exists|b: int| 0 <= b < k + 1 && s0[b] == #[trigger] slots_view(kept@)[a] by {
                    let b = choose|b: int| 0 <= b < k && s0[b] == #[trigger] slots_view(kept@)[a];
                }
                let ghost g0 = gone@;
                gone.push(x.id);
                assert(gone@.map_values(|d: String| d@) =~= g0.map_values(|d: String| d@).push(s0[k].id));
            } else {
                let ghost k0 = kept@;
                kept.push(x);
                assert(slots_view(kept@) =~= slots_view(k0).push(s0[k]));
                proof {
                    let kv = slots_view(k0);
                    assert forall|a: int| 0 <= a < kv.len() implies kv[a].id != s0[k].id
                        && kv[a].status != ModelStatus::Loading || s0[k].status != ModelStatus::Loading by {
                        let b = choose|b: int| 0 <= b < k && s0[b] == #[trigger] kv[a];
                        assert(s0[b] == kv[a]);
                    }
                    let t = slots_view(kept@);
                    assert forall|a: int, c: int| 0 <= a < c < t.len() implies t[a].id != t[c].id by {
                        if c == kv.len() {
                            assert(kv[a].id != s0[k].id && kv[a].status != ModelStatus::Loading || s0[k].status != ModelStatus::Loading);
                            let b = choose|b: int| 0 <= b < k && s0[b] == #[trigger] kv[a];
                            assert(s0[b] == kv[a]);
                        } else {
                            assert(t[a] == kv[a] && t[c] == kv[c]);
                        }
                    }
                    assert forall|a: int, c: int|
                        0 <= a < t.len() && 0 <= c < t.len() && t[a].status == ModelStatus::Loading
                            && t[c].status == ModelStatus::Loading implies a == c by {
                        if a < kv.len() && c < kv.len() {
                            assert(t[a] == kv[a] && t[c] == kv[c]);
                        } else if a < kv.len() {
                            let b = choose|b: int| 0 <= b < k && s0[b] == #[trigger] kv[a];
                            assert(s0[b] == kv[a]);
                        } else if c < kv.len() {
                            let b = choose|b: int| 0 <= b < k && s0[b] == #[trigger] kv[c];
                            assert(s0[b] == kv[c]);
                        }
                    }
                    assert forall|a: int| 0 <= a < t.len() implies exists|b: int| 0 <= b < k + 1 && s0[b] == #[trigger] t[a] by {
                        if a < kv.len() {
                            assert(t[a] == kv[a]);
                            let b = choose|b: int| 0 <= b < k && s0[b] == #[trigger] kv[a];
                        } else {
                            assert(t[a] == s0[k]);
                        }
                    }
                }
            }
            proof {
                k = k + 1;
            }
        }
        assert(s0.subrange(0, k) =~= s0);
        self.slots = kept;
        gone
    }

    /// Number of slots that take room.
    fn occupied_count(&self) -> (r: usize)
        ensures
            r == count(self@, is_occupied()),
    {
        let mut n: usize = 0;
        let mut i: usize = 0;
        while i < self.slots.len()
            invariant
                i <= self.slots.len(),
                n == count(self@.subrange(0, i as int), is_occupied()),
                n <= i,
            decreases self.slots.len() - i,
        {
            assert(self@.subrange(0, i + 1).drop_last() =~= self@.subrange(0, i as int));
            assert(self@[i as int] == self.slots@[i as int]@);
            if self.slots[i].status == ModelStatus::Ready || self.slots[i].status == ModelStatus::Loading {
                n = n + 1;
            }
            i = i + 1;
        }
        assert(self@.subrange(0, i as int) =~= self@);
        n
    }

    /// Index of the slot to evict next, if any slot may be evicted.
    fn find_victim(&self) -> (r: Option<usize>)
        ensures
            match r {
                Some(i) => i < self@.len() && victim(self@) == Some(i as int),
                None => victim(self@) is None && forall|j: int| 0 <= j < self@.len() ==> !evictable(#[trigger] self@[j]),
            },
    {
        let mut best: Option<usize> = None;
        let mut i: usize = 0;
        while i < self.slots.len()
            invariant
                i <= self.slots.len(),
                match best {
                    Some(b) => b < i && evictable(self@[b as int])
                        && (forall|j: int| 0 <= j < i && evictable(self@[j])
                            ==> self@[b as int].last_used <= self@[j].last_used)
                        && (forall|j: int| 0 <= j < b && evictable(self@[j])
                            ==> self@[b as int].last_used < self@[j].last_used),
                    None => forall|j: int| 0 <= j < i ==> !evictable(#[trigger] self@[j]),
                },
            decreases self.slots.len() - i,
        {
            assert(self@[i as int] == self.slots@[i as int]@);
            if self.slots[i].status == ModelStatus::Ready && self.slots[i].pins == 0 {
                match best {
                    Some(b) => {
                        assert(self@[b as int] == self.slots@[b as int]@);
                        if self.slots[i].last_used < self.slots[b].last_used {
                            best = Some(i);
                        }
                    },
                    None => {
                        best = Some(i);
                    },
                }
            }
            i = i + 1;
        }
        match best {
            Some(b) => {
                assert(is_victim(self@, b as int));
                assert forall|k: int| is_victim(self@, k) implies k == b by {
                    if k < b {
                        assert(self@[b as int].last_used < self@[k].last_used);
                    } else if b < k {
                        assert(self@[k].last_used < self@[b as int].last_used);
                    }
                }
            },
            None => {
                assert forall|k: int| !is_victim(self@, k) by {}
            },
        }
        best
    }

    /// Evict least recently used models until a new load fits under
    /// `max_models`, or until every model left is held by a reference.
    /// Returns the ids evicted.
    pub fn maybe_evict(&mut self) -> (r: Vec<String>)
        requires
            old(self).wf(),
        ensures
            final(self).wf(),
            final(self).dirs() == old(self).dirs(),
            final(self).settings() == old(self).settings(),
            final(self)@ == evict_for_load(old(self)@, old(self).settings().max_models as nat),
            final(self).settings().max_models == 0 || count(final(self)@, is_occupied())
                < final(self).settings().max_models || forall|j: int|
                0 <= j < final(self)@.len() ==> !evictable(#[trigger] final(self)@[j]),
            (forall|k: int| 0 <= k < old(self)@.len() ==> (#[trigger] old(self)@[k]).status != ModelStatus::Loading) ==> forall|j: int| 0 <= j < final(self)@.len() ==> (#[trigger] final(self)@[j]).status != ModelStatus::Loading,
    {
        let max = self.config.max_models;
        let mut gone: Vec<String> = Vec::new();
        if max == 0 {
            return gone;
        }
        let ghost s0 = self@;
        loop
            invariant
                self.wf(),
                self.settings().max_models == max,
                max > 0,
                self.dirs() == old(self).dirs(),
                self.settings() == old(self).settings(),
                evict_for_load(s0, max as nat) == evict_for_load(self@, max as nat),
                (forall|k: int| 0 <= k < s0.len() ==> (#[trigger] s0[k]).status != ModelStatus::Loading) ==> forall|j: int| 0 <= j < self@.len() ==> (#[trigger] self@[j]).status != ModelStatus::Loading,
            ensures
                self.wf(),
                self.dirs() == old(self).dirs(),
                self.settings() == old(self).settings(),
                self@ == evict_for_load(s0, max as nat),
                count(self@, is_occupied()) < max || forall|j: int| 0 <= j < self@.len() ==> !evictable(#[trigger] self@[j]),
                (forall|k: int| 0 <= k < s0.len() ==> (#[trigger] s0[k]).status != ModelStatus::Loading) ==> forall|j: int| 0 <= j < self@.len() ==> (#[trigger] self@[j]).status != ModelStatus::Loading,
            decreases self@.len(),
        {
            if self.occupied_count() < max {
                break;
            }
            match self.find_victim() {
                Some(i) => {
                    proof {
                        lemma_wf_remove(self@, i as int);
                    }
                    let ghost s1 = self@;
                    assert(self.slots@[i as int]@ == s1[i as int]);
                    gone.push(self.slots[i].id.clone());
                    self.drop_slot(i);
                    assert(forall|j: int| 0 <= j < self@.len() ==> self@[j] == s1[if j < i { j } else { j + 1 }]);
                },
                None => {
                    break;
                },
            }
        }
        gone
    }


    /// Whether some slot is loading.
    fn any_loading(&self) -> (r: bool)
        ensures
            r == has_loading(self@),
    {
        let mut i: usize = 0;
        while i < self.slots.len()
            invariant
                i <= self.slots.len(),
                forall|k: int| 0 <= k < i ==> self@[k].status != ModelStatus::Loading,
            decreases self.slots.len() - i,
        {
            assert(self@[i as int] == self.slots@[i as int]@);
            if self.slots[i].status == ModelStatus::Loading {
                return true;
            }
            i = i + 1;
        }
        false
    }

    /// Put `x` in place of the slot with its id, or at the end.
    fn put(&mut self, x: ModelSlot)
        requires
            old(self).wf(),
        ensures
            final(self)@ == put_slot(old(self)@, x@),
            final(self).dirs() == old(self).dirs(),
            final(self).settings() == old(self).settings(),
    {
        match self.find(&x.id) {
            Some(i) => {
                self.set_slot(i, x);
            },
            None => {
                let ghost v0 = self.slots@;
                self.slots.push(x);
                assert(self@ =~= slots_view(v0).push(x@));
            },
        }
    }

    /// Begin loading the model file at `path` at time `now`. Its id is its
    /// catalogue id. A ready model is handed out again (and marked used); else,
    /// when no other load is in flight, models are evicted to make room and
    /// a loading slot is put in place.
    pub fn load_begin(&mut self, path: &str, now: u64) -> (r: LoadStart)
        requires
            old(self).wf(),
            not_before(old(self)@, now),
        ensures
            final(self).wf(),
            final(self).dirs() == old(self).dirs(),
            final(self).settings() == old(self).settings(),
            r is Ready <==> ready_for(old(self)@, load_id(path@)),
            r is Busy <==> !ready_for(old(self)@, load_id(path@)) && has_loading(old(self)@),
            match r {
                LoadStart::Ready(m) => {
                    let i = index_of(old(self)@, load_id(path@))->Some_0;
                    &&& old(self)@[i].loaded == Some(m@)
                    &&& final(self)@ == old(self)@.update(
                        i,
                        SlotView { last_used: now, pins: (old(self)@[i].pins + 1) as u64, ..old(self)@[i] },
                    )
                },
                LoadStart::Busy => final(self)@ == old(self)@,
                LoadStart::Proceed { id, evicted } => {
                    &&& id@ == load_id(path@)
                    &&& final(self)@ == put_slot(
                        evict_for_load(old(self)@, old(self).settings().max_models as nat),
                        loading_slot(id@, now),
                    )
                    &&& old(self).settings().max_models > 0 ==> count(final(self)@, is_occupied()) <= if old(
                        self,
                    ).settings().max_models >= count(final(self)@, is_pinned()) + 1 {
                        old(self).settings().max_models as nat
                    } else {
                        count(final(self)@, is_pinned()) + 1
                    }
                },
            },
    {
        let id = generate_model_id(path);
        match self.find(&id) {
            Some(i) => {
                assert(self@[i as int] == self.slots@[i as int]@);
                if self.slots[i].status == ModelStatus::Ready && self.slots[i].pins < u64::MAX {
                    let m = match &self.slots[i].loaded {
                        Some(m) => m.duplicate(),
                        None => {
                            return LoadStart::Busy;
                        },
                    };
                    let x = ModelSlot {
                        id: self.slots[i].id.clone(),
                        status: ModelStatus::Ready,
                        loaded: Some(m.duplicate()),
                        last_used: now,
                        pins: self.slots[i].pins + 1,
                    };
                    proof {
                        lemma_wf_update(self@, i as int, x@);
                    }
                    self.set_slot(i, x);
                    return LoadStart::Ready(m);
                }
            },
            None => {},
        }
        if self.any_loading() {
            return LoadStart::Busy;
        }
        let evicted = self.maybe_evict();
        let ghost e = self@;
        let x = ModelSlot { id: id.clone(), status: ModelStatus::Loading, loaded: None, last_used: now, pins: 0 };
        proof {
            assert(forall|k: int| 0 <= k < e.len() ==> (#[trigger] e[k]).status != ModelStatus::Loading);
            match index_of(e, id@) {
                Some(k) => {
                    lemma_wf_update(e, k, x@);
                    lemma_count_update(e, is_occupied(), k, x@);
                    lemma_count_update(e, is_pinned(), k, x@);
                },
                None => {
                    lemma_wf_push(e, x@);
                    lemma_count_push(e, is_occupied(), x@);
                    lemma_count_push(e, is_pinned(), x@);
                },
            }
            if self.config.max_models > 0 && count(e, is_occupied()) >= self.config.max_models {
                lemma_count_equiv(e, is_occupied(), is_pinned());
            }
        }
        self.put(x);
        LoadStart::Proceed { id, evicted }
    }

    /// Finish the load of `id` from `path` begun by `load_begin`: on success
    /// (`outcome` holds the handle of the decoder) the slot is ready and
    /// held by the reference returned, and `dir`, the canonical directory
    /// of the file as the caller found it (`None` for a path without one),
    /// joins the scan list; on failure the slot is removed.
    pub fn load_finish(
        &mut self,
        id: &str,
        path: &str,
        dir: Option<String>,
        outcome: Result<u64, LlamaError>,
        now: u64,
    ) -> (r: Result<LoadedModel, LlamaError>)
        requires
            old(self).wf(),
            not_before(old(self)@, now),
        ensures
            final(self).wf(),
            final(self).settings() == old(self).settings(),
            match outcome {
                Ok(h) => {
                    let m = LoadedView { id: id@, path: path@, handle: h };
                    &&& r is Ok && r->Ok_0@ == m
                    &&& final(self)@ == put_slot(old(self)@, ready_slot(m, now))
                    &&& final(self).dirs() == match dir {
                        Some(d) => if old(self).dirs().contains(d@) {
                            old(self).dirs()
                        } else {
                            old(self).dirs().push(d@)
                        },
                        None => old(self).dirs(),
                    }
                },
                Err(e) => {
                    &&& r == Err::<LoadedModel, LlamaError>(e)
                    &&& final(self)@ == drop_id(old(self)@, id@)
                    &&& final(self).dirs() == old(self).dirs()
                },
            },
    {
        match outcome {
            Ok(h) => {
                let m = LoadedModel { id: String::from_str(id), path: String::from_str(path), handle: h };
                let x = ModelSlot { id: String::from_str(id), status: ModelStatus::Ready, loaded: Some(m.duplicate()), last_used: now, pins: 1 };
                proof {
                    match index_of(self@, x@.id) {
                        Some(k) => {
                            lemma_wf_update(self@, k, x@);
                        },
                        None => {
                            lemma_wf_push(self@, x@);
                        },
                    }
                }
                self.put(x);
                match dir {
                    Some(d) => self.add_model_dir(d),
                    None => {},
                }
                Ok(m)
            },
            Err(e) => {
                self.unload(id);
                Err(e)
            },
        }
    }

    /// Path of the first catalogue entry whose id matches `model_id` up to
    /// ASCII case.
    pub fn find_model_path(available: &Vec<ModelEntry>, model_id: &str) -> (r: Option<String>)
        ensures
            match r {
                Some(p) => first_listed(available@, model_id@, p@),
                None => !listed(available@, model_id@),
            },
    {
        let want = crate::text::chars_of(model_id);
        let mut i: usize = 0;
        while i < available.len()
            invariant
                i <= available.len(),
                want@ == model_id@,
                forall|k: int| 0 <= k < i ==> !eq_ignore_ascii_case(#[trigger] available@[k].id@, model_id@),
            decreases available.len() - i,
        {
            let have = crate::text::chars_of(available[i].id.as_str());
            if same_ignoring_ascii_case(&have, &want) {
                return Some(available[i].path.clone());
            }
            i = i + 1;
        }
        None
    }

    /// A ready model for a request naming `model_name` (or none), or, when
    /// none is ready and the name is in `available`, what to load.
    pub fn ensure_loaded(&mut self, model_name: Option<&str>, available: &Vec<ModelEntry>, now: u64) -> (r: Result<EnsureLoaded, LlamaError>)
        requires
            old(self).wf(),
            not_before(old(self)@, now),
        ensures
            final(self).wf(),
            final(self).dirs() == old(self).dirs(),
            final(self).settings() == old(self).settings(),
            ({
                let (t, got) = take_ref(
                    old(self)@,
                    match model_name {
                        Some(n) => index_of(old(self)@, n@),
                        None => mru(old(self)@),
                    },
                );
                match got {
                    Some(m) => (r matches Ok(EnsureLoaded::Ready(x)) && x@ == m) && final(self)@ == match index_of(t, m.id) {
                        Some(i) => t.update(i, SlotView { last_used: now, ..t[i] }),
                        None => t,
                    },
                    None => final(self)@ == old(self)@ && match model_name {
                        Some(n) => if listed(available@, n@) {
                            (r matches Ok(EnsureLoaded::Load { path, n_gpu_layers, n_ctx }) && (
                                first_listed(available@, n@, path@)
                                && n_gpu_layers == old(self).settings().default_n_gpu_layers
                                && n_ctx == old(self).settings().default_ctx_size))
                        } else {
                            r == Err::<EnsureLoaded, LlamaError>(LlamaError::ModelNotLoaded)
                        },
                        None => r == Err::<EnsureLoaded, LlamaError>(LlamaError::ModelNotLoaded),
                    },
                }
            }),
    {
        match self.resolve(model_name) {
            Some(m) => {
                self.touch(m.id.as_str(), now);
                return Ok(EnsureLoaded::Ready(m));
            },
            None => {},
        }
        match model_name {
            Some(name) => match ModelManager::find_model_path(available, name) {
                Some(path) => {
                    return Ok(EnsureLoaded::Load {
                        path,
                        n_gpu_layers: self.config.default_n_gpu_layers,
                        n_ctx: self.config.default_ctx_size,
                    });
                },
                None => {},
            },
            None => {},
        }
        Err(LlamaError::ModelNotLoaded)
    }

}

/// Whether two texts are equal up to ASCII case.
fn same_ignoring_ascii_case(a: &Vec<char>, b: &Vec<char>) -> (r: bool)
    ensures
        r == eq_ignore_ascii_case(a@, b@),
{
    if a.len() != b.len() {
        return false;
    }
    let mut i: usize = 0;
    while i < a.len()
        invariant
            i <= a.len(),
            a.len() == b.len(),
            forall|k: int| 0 <= k < i ==> fold_ascii(#[trigger] a@[k]) == fold_ascii(b@[k]),
        decreases a.len() - i,
    {
        if fold(a[i]) != fold(b[i]) {
            return false;
        }
        i = i + 1;
    }
    true
}

fn fold(c: char) -> (r: u32)
    ensures
        r == fold_ascii(c),
{
    if 'A' <= c && c <= 'Z' {
        (c as u32) + 32
    } else {
        c as u32
    }
}

pub proof fn lemma_count_at_most_one(s: Seq<SlotView>, p: spec_fn(SlotView) -> bool)
    requires
        forall|i: int, j: int| 0 <= i < s.len() && 0 <= j < s.len() && p(s[i]) && p(s[j]) ==> i == j,
    ensures
        count(s, p) <= 1,
    decreases s.len(),
{
    if s.len() > 0 {
        let t = s.drop_last();
        lemma_count_at_most_one(t, p);
        if p(s.last()) {
            assert forall|i: int| 0 <= i < t.len() implies !p(#[trigger] t[i]) by {
                assert(s[i] == t[i]);
                if p(t[i]) {
                    assert(i == s.len() - 1);
                }
            }
            lemma_count_none(t, p);
        }
    }
}

/// Every ready slot holds its loaded model.
pub proof fn ready_slots_hold_a_model(m: ModelManager)
    requires
        m.wf(),
    ensures
        forall|i: int| 0 <= i < m@.len() && (#[trigger] m@[i]).status == ModelStatus::Ready ==> m@[i].loaded is Some,
{
}

/// At most one slot is loading at any time.
pub proof fn at_most_one_loading(m: ModelManager)
    requires
        m.wf(),
    ensures
        count(m@, is_loading()) <= 1,
{
    lemma_count_at_most_one(m@, is_loading());
}

/// Seconds between two idle sweeps for an idle timeout of `timeout_secs`:
/// none when the timeout is 0, else the timeout but at least 30.
pub fn sweep_interval_secs(timeout_secs: u64) -> (r: Option<u64>)
    ensures
        timeout_secs == 0 ==> r is None,
        timeout_secs > 0 ==> r == Some(if timeout_secs < 30 { 30 } else { timeout_secs }),
{
    if timeout_secs == 0 {
        None
    } else if timeout_secs < 30 {
        Some(30)
    } else {
        Some(timeout_secs)
    }
}

} // verus!
