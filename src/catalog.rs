use vstd::multiset::Multiset;
use vstd::prelude::*;

use crate::reader::{opt_text, QuickScanResult};
use crate::text::{
    all_digits, all_digits_in, chars_of, contains, contains_chars, find_last, last_index_of,
    lemma_last_index_of, lemma_lex_total, lemma_lex_trans, lex_le, lex_le_chars,
};

verus! {

/// Text of a path after its last `/`.
pub open spec fn file_name(p: Seq<char>) -> Seq<char> {
    p.subrange(last_index_of(p, '/', p.len() as int) + 1, p.len() as int)
}

/// Text of a path before its last `/` (empty where it has none).
pub open spec fn parent_dir(p: Seq<char>) -> Seq<char> {
    let k = last_index_of(p, '/', p.len() as int);
    if k < 0 {
        Seq::empty()
    } else {
        p.subrange(0, k)
    }
}

/// A file name without its extension. A name whose only dot comes first
/// has no extension.
pub open spec fn file_stem(name: Seq<char>) -> Seq<char> {
    let k = last_index_of(name, '.', name.len() as int);
    if k > 0 {
        name.subrange(0, k)
    } else {
        name
    }
}

pub open spec fn gguf_ext() -> Seq<char> {
    seq!['.', 'g', 'g', 'u', 'f']
}

pub open spec fn ends_with_gguf(s: Seq<char>) -> bool {
    s.len() >= 5 && s.subrange(s.len() - 5, s.len() as int) == gguf_ext()
}

/// A name with every trailing `.gguf` taken off.
pub open spec fn trim_gguf(s: Seq<char>) -> Seq<char>
    decreases s.len(),
{
    if ends_with_gguf(s) {
        trim_gguf(s.subrange(0, s.len() - 5))
    } else {
        s
    }
}

pub open spec fn companion_tags() -> (Seq<char>, Seq<char>) {
    (seq!['-', 'm', 'm', 'p', 'r', 'o', 'j', '-'], seq!['_', 'm', 'm', 'p', 'r', 'o', 'j', '_'])
}

/// Whether a file name marks a companion (projector) file.
pub open spec fn is_companion(name: Seq<char>) -> bool {
    contains(name, companion_tags().0) || contains(name, companion_tags().1)
}

/// Base name of a part of a split model: for `<base>-<digits>-of-<digits>.gguf`,
/// `<base>`; `None` for any other name. Each digit run holds at least one
/// digit, and the three dashes are the last three of the name.
pub open spec fn split_base(name: Seq<char>) -> Option<Seq<char>> {
    if !ends_with_gguf(name) {
        None
    } else {
        let m = name.subrange(0, name.len() - 5);
        let a = last_index_of(m, '-', m.len() as int);
        let b = last_index_of(m, '-', a);
        let c = last_index_of(m, '-', b);
        if a < 0 || b < 0 || c < 0 {
            None
        } else if a + 1 < m.len() && c + 1 < b && all_digits(m.subrange(a + 1, m.len() as int))
            && m.subrange(b + 1, a) == seq![
            'o',
            'f',
        ] && all_digits(m.subrange(c + 1, b)) {
            Some(m.subrange(0, c))
        } else {
            None
        }
    }
}

/// Replace every space by a dash.
pub open spec fn dash_spaces(s: Seq<char>) -> Seq<char> {
    s.map_values(|c: char| if c == ' ' { '-' } else { c })
}

/// What `str::to_lowercase` makes of a text.
pub uninterp spec fn lower_of(s: Seq<char>) -> Seq<char>;

/// Relies on `str::to_lowercase`: the result depends on the characters alone.
#[verifier::external_body]
fn lowercase(s: &str) -> (r: String)
    ensures
        r@ == lower_of(s@),
{
    s.to_lowercase()
}

/// Catalogue id of the file at `path`.
pub open spec fn model_id(path: Seq<char>) -> Seq<char> {
    dash_spaces(lower_of(file_stem(file_name(path))))
}

/// Index where the file name of `p` starts.
fn name_start(p: &Vec<char>) -> (r: usize)
    ensures
        r as int == last_index_of(p@, '/', p@.len() as int) + 1,
        r <= p.len(),
{
    proof {
        lemma_last_index_of(p@, '/', p@.len() as int);
    }
    match find_last(p, '/', p.len()) {
        Some(i) => i + 1,
        None => 0,
    }
}

/// The file name of a path.
pub fn path_file_name(path: &str) -> (r: String)
    ensures
        r@ == file_name(path@),
{
    let p = chars_of(path);
    let k = name_start(&p);
    String::from_str(path.substring_char(k, p.len()))
}

/// The directory part of a path.
pub fn path_parent(path: &str) -> (r: String)
    ensures
        r@ == parent_dir(path@),
{
    let p = chars_of(path);
    proof {
        lemma_last_index_of(p@, '/', p@.len() as int);
    }
    match find_last(&p, '/', p.len()) {
        Some(k) => String::from_str(path.substring_char(0, k)),
        None => String::new(),
    }
}

/// The stem of a file name.
pub fn name_stem(name: &str) -> (r: String)
    ensures
        r@ == file_stem(name@),
{
    let v = chars_of(name);
    proof {
        lemma_last_index_of(v@, '.', v@.len() as int);
    }
    match find_last(&v, '.', v.len()) {
        Some(k) => if k > 0 {
            String::from_str(name.substring_char(0, k))
        } else {
            String::from_str(name)
        },
        None => String::from_str(name),
    }
}

fn ends_with_gguf_chars(v: &Vec<char>, len: usize) -> (r: bool)
    requires
        len <= v.len(),
    ensures
        r == ends_with_gguf(v@.subrange(0, len as int)),
{
    let ghost s = v@.subrange(0, len as int);
    if len < 5 {
        return false;
    }
    let r = v[len - 5] == '.' && v[len - 4] == 'g' && v[len - 3] == 'g' && v[len - 2] == 'u' && v[len
        - 1] == 'f';
    assert(r == (s.subrange(s.len() - 5, s.len() as int) =~= gguf_ext()));
    r
}

/// A file name with every trailing `.gguf` taken off.
pub fn trim_gguf_suffix(name: &str) -> (r: String)
    ensures
        r@ == trim_gguf(name@),
{
    let v = chars_of(name);
    let mut len: usize = v.len();
    assert(v@.subrange(0, len as int) =~= v@);
    while ends_with_gguf_chars(&v, len)
        invariant
            len <= v.len(),
            trim_gguf(name@) == trim_gguf(v@.subrange(0, len as int)),
        decreases len,
    {
        assert(v@.subrange(0, len as int).subrange(0, len - 5) =~= v@.subrange(0, len - 5));
        len = len - 5;
    }
    String::from_str(name.substring_char(0, len))
}

/// Whether a file name marks a companion (projector) file.
pub fn is_companion_name(name: &str) -> (r: bool)
    ensures
        r == is_companion(name@),
{
    let v = chars_of(name);
    let dash = vec!['-', 'm', 'm', 'p', 'r', 'o', 'j', '-'];
    let under = vec!['_', 'm', 'm', 'p', 'r', 'o', 'j', '_'];
    assert(dash@ =~= companion_tags().0);
    assert(under@ =~= companion_tags().1);
    contains_chars(&v, &dash) || contains_chars(&v, &under)
}

/// Base name of a part of a split model, or `None` when the name does not
/// have the form `<base>-<digits>-of-<digits>.gguf`.
pub fn detect_split_base(filename: &str) -> (r: Option<String>)
    ensures
        match split_base(filename@) {
            Some(b) => r is Some && r->Some_0@ == b,
            None => r is None,
        },
{
    let v = chars_of(filename);
    if !ends_with_gguf_chars(&v, v.len()) {
        assert(v@.subrange(0, v.len() as int) =~= v@);
        return None;
    }
    assert(v@.subrange(0, v.len() as int) =~= v@);
    let n = v.len() - 5;
    let ghost m = v@.subrange(0, n as int);
    let mut w: Vec<char> = Vec::new();
    let mut i: usize = 0;
    while i < n
        invariant
            n <= v.len(),
            i <= n,
            w@ == v@.subrange(0, i as int),
        decreases n - i,
    {
        w.push(v[i]);
        i = i + 1;
    }
    assert(w@ =~= m);
    proof {
        lemma_last_index_of(m, '-', m.len() as int);
    }
    let a = match find_last(&w, '-', n) {
        Some(a) => a,
        None => return None,
    };
    proof {
        lemma_last_index_of(m, '-', a as int);
    }
    let b = match find_last(&w, '-', a) {
        Some(b) => b,
        None => return None,
    };
    proof {
        lemma_last_index_of(m, '-', b as int);
    }
    let c = match find_last(&w, '-', b) {
        Some(c) => c,
        None => return None,
    };
    let of_ok = a == b + 3 && w[b + 1] == 'o' && w[b + 2] == 'f';
    assert(of_ok == (m.subrange(b + 1, a as int) =~= seq!['o', 'f']));
    if a + 1 < n && c + 1 < b && all_digits_in(&w, a + 1, n) && of_ok && all_digits_in(&w, c + 1, b) {
        Some(String::from_str(filename.substring_char(0, c)))
    } else {
        None
    }
}

/// Replace every space of `s` by a dash.
fn dash_spaces_of(s: &str) -> (r: String)
    ensures
        r@ == dash_spaces(s@),
{
    let n = s.unicode_len();
    let mut out = String::new();
    let mut i: usize = 0;
    while i < n
        invariant
            n == s@.len(),
            i <= n,
            out@ == dash_spaces(s@.subrange(0, i as int)),
        decreases n - i,
    {
        let c = s.get_char(i);
        let piece = s.substring_char(i, i + 1);
        if c == ' ' {
            out.append("-");
            proof {
                reveal_strlit("-");
            }
        } else {
            out.append(piece);
        }
        assert(dash_spaces(s@.subrange(0, i + 1)) =~= dash_spaces(s@.subrange(0, i as int))
            + seq![if c == ' ' { '-' } else { c }]);
        assert(out@ =~= dash_spaces(s@.subrange(0, i + 1)));
        i = i + 1;
    }
    assert(s@.subrange(0, n as int) =~= s@);
    out
}

/// Catalogue id of a model file: its stem, lower-cased, spaces made dashes.
pub fn generate_model_id(path: &str) -> (r: String)
    ensures
        r@ == model_id(path@),
{
    let name = path_file_name(path);
    let stem = name_stem(name.as_str());
    let lower = lowercase(stem.as_str());
    dash_spaces_of(lower.as_str())
}

/// A model file found on disk, with what a quick scan of it gave (`None`
/// where the file could not be opened or parsed).
#[derive(Debug)]
pub struct FoundFile {
    pub path: String,
    pub scan: Option<QuickScanResult>,
}

/// An entry of the model catalogue.
#[derive(Debug, Clone)]
pub struct ModelEntry {
    pub id: String,
    pub name: String,
    pub path: String,
    pub file_size: u64,
    pub architecture: Option<String>,
    pub quantization: Option<String>,
    pub context_length: Option<u32>,
    pub is_split: bool,
    pub split_parts: Vec<String>,
    pub mmproj_path: Option<String>,
}

/// Mathematical form of a catalogue entry.
pub struct EntryModel {
    pub id: Seq<char>,
    pub name: Seq<char>,
    pub path: Seq<char>,
    pub file_size: u64,
    pub architecture: Option<Seq<char>>,
    pub quantization: Option<Seq<char>>,
    pub context_length: Option<u32>,
    pub is_split: bool,
    pub split_parts: Seq<Seq<char>>,
    pub mmproj_path: Option<Seq<char>>,
}

pub open spec fn texts(v: Seq<String>) -> Seq<Seq<char>> {
    v.map_values(|s: String| s@)
}

impl View for ModelEntry {
    type V = EntryModel;

    open spec fn view(&self) -> EntryModel {
        EntryModel {
            id: self.id@,
            name: self.name@,
            path: self.path@,
            file_size: self.file_size,
            architecture: opt_text(self.architecture),
            quantization: opt_text(self.quantization),
            context_length: self.context_length,
            is_split: self.is_split,
            split_parts: texts(self.split_parts@),
            mmproj_path: opt_text(self.mmproj_path),
        }
    }
}

pub open spec fn entries_model(v: Seq<ModelEntry>) -> Seq<EntryModel> {
    v.map_values(|e: ModelEntry| e@)
}

/// The entry that a primary file starts.
pub open spec fn new_entry(f: FoundFile) -> EntryModel {
    let fallback = trim_gguf(file_name(f.path@));
    EntryModel {
        id: model_id(f.path@),
        name: match f.scan {
            Some(q) => match q.name {
                Some(n) => n@,
                None => fallback,
            },
            None => fallback,
        },
        path: f.path@,
        file_size: match f.scan {
            Some(q) => q.file_size,
            None => 0,
        },
        architecture: match f.scan {
            Some(q) => opt_text(q.architecture),
            None => None,
        },
        quantization: match f.scan {
            Some(q) => opt_text(q.file_type_name),
            None => None,
        },
        context_length: match f.scan {
            Some(q) => q.context_length,
            None => None,
        },
        is_split: false,
        split_parts: seq![f.path@],
        mmproj_path: None,
    }
}

/// Index of the first entry that satisfies `pred`.
pub open spec fn first_where(es: Seq<EntryModel>, pred: spec_fn(EntryModel) -> bool) -> Option<int> {
    if exists|i: int| 0 <= i < es.len() && pred(es[i]) {
        Some(
            choose|i: int|
                0 <= i < es.len() && pred(es[i]) && forall|k: int| 0 <= k < i ==> !pred(es[k]),
        )
    } else {
        None
    }
}

pub proof fn lemma_first_where(es: Seq<EntryModel>, pred: spec_fn(EntryModel) -> bool, j: int)
    requires
        0 <= j < es.len(),
        pred(es[j]),
        forall|k: int| 0 <= k < j ==> !pred(es[k]),
    ensures
        first_where(es, pred) == Some(j),
{
    assert(exists|i: int| 0 <= i < es.len() && pred(es[i]) && forall|k: int| 0 <= k < i ==> !pred(es[k]));
    let i = choose|i: int|
        0 <= i < es.len() && pred(es[i]) && forall|k: int| 0 <= k < i ==> !pred(es[k]);
    if i < j {
        assert(!pred(es[i]));
    } else if j < i {
        assert(!pred(es[j]));
    }
}

/// Entries whose file starts the split set with base `base`.
pub open spec fn starts_set(base: Seq<char>) -> spec_fn(EntryModel) -> bool {
    |e: EntryModel| split_base(file_name(e.path)) == Some(base)
}

/// Entries in directory `dir` that have no companion yet.
pub open spec fn free_in_dir(dir: Seq<char>) -> spec_fn(EntryModel) -> bool {
    |e: EntryModel| parent_dir(e.path) == dir && e.mmproj_path is None
}

/// First pass over the sorted files: an entry per primary file, with later
/// parts of a split set folded into the entry of its first part.
pub open spec fn primary_entries(files: Seq<FoundFile>) -> Seq<EntryModel>
    decreases files.len(),
{
    if files.len() == 0 {
        Seq::empty()
    } else {
        let prev = primary_entries(files.drop_last());
        let p = files.last().path@;
        let name = file_name(p);
        if is_companion(name) {
            prev
        } else {
            match split_base(name) {
                Some(base) => match first_where(prev, starts_set(base)) {
                    Some(i) => prev.update(
                        i,
                        EntryModel { is_split: true, split_parts: prev[i].split_parts.push(p), ..prev[i] },
                    ),
                    None => prev.push(new_entry(files.last())),
                },
                None => prev.push(new_entry(files.last())),
            }
        }
    }
}

/// Second pass: each companion file, in order, goes to the first entry of
/// its directory that has none yet.
pub open spec fn attach_companions(es: Seq<EntryModel>, paths: Seq<Seq<char>>) -> Seq<EntryModel>
    decreases paths.len(),
{
    if paths.len() == 0 {
        es
    } else {
        let prev = attach_companions(es, paths.drop_last());
        let p = paths.last();
        if is_companion(file_name(p)) {
            match first_where(prev, free_in_dir(parent_dir(p))) {
                Some(i) => prev.update(i, EntryModel { mmproj_path: Some(p), ..prev[i] }),
                None => prev,
            }
        } else {
            prev
        }
    }
}

pub open spec fn paths_of(files: Seq<FoundFile>) -> Seq<Seq<char>> {
    files.map_values(|f: FoundFile| f.path@)
}

/// The catalogue of a sorted list of files.
pub open spec fn catalog(files: Seq<FoundFile>) -> Seq<EntryModel> {
    attach_companions(primary_entries(files), paths_of(files))
}

/// Files in order of their paths.
pub open spec fn paths_sorted(files: Seq<FoundFile>) -> bool {
    forall|i: int, j: int| 0 <= i < j < files.len() ==> lex_le(files[i].path@, files[j].path@)
}

/// The entry that a primary file starts.
fn make_entry(f: FoundFile) -> (r: ModelEntry)
    ensures
        r@ == new_entry(f),
{
    let id = generate_model_id(f.path.as_str());
    let fname = path_file_name(f.path.as_str());
    let fallback = trim_gguf_suffix(fname.as_str());
    let parts = vec![f.path.clone()];
    assert(texts(parts@) =~= seq![f.path@]);
    match f.scan {
        Some(q) => {
            let name = match q.name {
                Some(n) => n,
                None => fallback,
            };
            ModelEntry {
                id,
                name,
                path: f.path,
                file_size: q.file_size,
                architecture: q.architecture,
                quantization: q.file_type_name,
                context_length: q.context_length,
                is_split: false,
                split_parts: parts,
                mmproj_path: None,
            }
        },
        None => ModelEntry {
            id,
            name: fallback,
            path: f.path,
            file_size: 0,
            architecture: None,
            quantization: None,
            context_length: None,
            is_split: false,
            split_parts: parts,
            mmproj_path: None,
        },
    }
}

/// Put `e` back at index `j` of `v`, from which it was removed.
fn put_back(v: &mut Vec<ModelEntry>, j: usize, e: ModelEntry)
    requires
        j <= old(v).len(),
    ensures
        final(v)@ == old(v)@.insert(j as int, e),
{
    v.insert(j, e);
}

proof fn lemma_replace(v: Seq<ModelEntry>, j: int, e: ModelEntry)
    requires
        0 <= j < v.len(),
    ensures
        entries_model(v.remove(j).insert(j, e)) == entries_model(v).update(j, e@),
{
    assert(entries_model(v.remove(j).insert(j, e)) =~= entries_model(v).update(j, e@));
}

/// Sort files by path, component by component (insertion sort; catalogues
/// are small).
pub fn sort_found_files(files: Vec<FoundFile>) -> (r: Vec<FoundFile>)
    ensures
        r@.to_multiset() == files@.to_multiset(),
        paths_sorted(r@),
{
    let ghost orig = files@;
    let mut rest = files;
    let mut out: Vec<FoundFile> = Vec::new();
    let mut keys: Vec<Vec<char>> = Vec::new();
    assert(out@.to_multiset() =~= Multiset::empty()) by {
        out@.to_multiset_ensures();
        vstd::multiset::lemma_multiset_empty_len(out@.to_multiset());
    }
    assert(Multiset::<FoundFile>::empty().add(rest@.to_multiset()) =~= rest@.to_multiset());
    while rest.len() > 0
        invariant
            out@.to_multiset().add(rest@.to_multiset()) == orig.to_multiset(),
            paths_sorted(out@),
            keys@.len() == out@.len(),
            forall|k: int| 0 <= k < keys@.len() ==> (#[trigger] keys@[k])@ == out@[k].path@,
        decreases rest.len(),
    {
        let ghost rest0 = rest@;
        let f = rest.remove(0);
        assert(rest0.remove(0) == rest@);
        let key = chars_of(f.path.as_str());
        let mut j: usize = 0;
        while j < out.len()
            invariant
                j <= out.len(),
                key@ == f.path@,
                keys@.len() == out@.len(),
                forall|k: int| 0 <= k < keys@.len() ==> (#[trigger] keys@[k])@ == out@[k].path@,
                forall|k: int| 0 <= k < j ==> !lex_le(f.path@, #[trigger] out@[k].path@),
            ensures
                j <= out.len(),
                forall|k: int| 0 <= k < j ==> !lex_le(f.path@, #[trigger] out@[k].path@),
                j < out.len() ==> lex_le(f.path@, out@[j as int].path@),
            decreases out.len() - j,
        {
            assert(keys@[j as int]@ == out@[j as int].path@);
            if lex_le_chars(&key, &keys[j]) {
                break;
            }
            j = j + 1;
        }
        let ghost out0 = out@;
        let ghost keys0 = keys@;
        keys.insert(j, key);
        assert forall|k: int| 0 <= k < keys@.len() implies (#[trigger] keys@[k])@ == out0.insert(j as int, f)[k].path@ by {
            if k < j {
                assert(keys@[k] == keys0[k]);
            } else if k > j {
                assert(keys@[k] == keys0[k - 1]);
            }
        }
        proof {
            assert forall|k: int| 0 <= k < j implies lex_le(#[trigger] out0[k].path@, f.path@) by {
                lemma_lex_total(f.path@, out0[k].path@);
            }
        }
        out.insert(j, f);
        proof {
            let t = out@;
            assert(t.remove(j as int) =~= out0);
            assert(t[j as int] == f);
            assert(t.to_multiset() == out0.to_multiset().insert(f)) by {
                t.to_multiset_ensures();
                assert(t.remove(j as int).to_multiset() == t.to_multiset().remove(t[j as int]));
                assert(out0.to_multiset() == t.to_multiset().remove(f));
                assert(t.contains(f)) by {
                    assert(0 <= j < t.len() && t[j as int] == f);
                }
                assert(t.to_multiset().count(f) > 0);
            }
            assert(rest0.to_multiset() == rest@.to_multiset().insert(f)) by {
                rest0.to_multiset_ensures();
                assert(rest0.remove(0).to_multiset() == rest0.to_multiset().remove(rest0[0]));
                assert(rest@.to_multiset() == rest0.to_multiset().remove(rest0[0]));
                assert(rest0.contains(rest0[0]));
                assert(rest0.to_multiset().count(rest0[0]) > 0);
            }
            assert(out@.to_multiset().add(rest@.to_multiset()) =~= out0.to_multiset().add(rest0.to_multiset()));
            assert forall|a: int, b: int| 0 <= a < b < t.len() implies lex_le(t[a].path@, t[b].path@) by {
                if b < j {
                    assert(t[a] == out0[a] && t[b] == out0[b]);
                } else if b == j {
                    assert(t[a] == out0[a]);
                } else if a == j {
                    assert(t[b] == out0[b - 1]);
                    if j < out0.len() {
                        assert(lex_le(f.path@, out0[j as int].path@));
                        if b - 1 > j {
                            lemma_lex_trans(f.path@, out0[j as int].path@, out0[b - 1].path@);
                        }
                    }
                } else if a < j {
                    assert(t[a] == out0[a] && t[b] == out0[b - 1]);
                    if j < out0.len() {
                        lemma_lex_trans(out0[a].path@, f.path@, out0[j as int].path@);
                        if b - 1 > j {
                            lemma_lex_trans(out0[a].path@, out0[j as int].path@, out0[b - 1].path@);
                        }
                    }
                } else {
                    assert(t[a] == out0[a - 1] && t[b] == out0[b - 1]);
                }
            }
        }
    }
    assert(rest@.to_multiset() =~= Multiset::empty()) by {
        assert(rest@ =~= Seq::<FoundFile>::empty());
    }
    assert(out@.to_multiset().add(Multiset::empty()) =~= out@.to_multiset());
    out
}

/// Whether two optional texts are equal.
fn same_text(a: &Option<String>, b: &String) -> (r: bool)
    ensures
        r == (opt_text(*a) == Some(b@)),
{
    match a {
        Some(x) => *x == *b,
        None => false,
    }
}

/// First pass of the catalogue over files sorted by path.
fn primary_pass(files: Vec<FoundFile>) -> (r: (Vec<ModelEntry>, Vec<String>))
    ensures
        entries_model(r.0@) == primary_entries(files@),
        texts(r.1@) == paths_of(files@),
{
    let ghost orig = files@;
    let mut rest = files;
    let mut entries: Vec<ModelEntry> = Vec::new();
    let mut paths: Vec<String> = Vec::new();
    let mut bases: Vec<Option<String>> = Vec::new();
    let ghost mut k: int = 0;
    assert(orig.subrange(0, 0) =~= Seq::<FoundFile>::empty());
    assert(entries_model(entries@) =~= Seq::<EntryModel>::empty());
    assert(texts(paths@) =~= paths_of(orig.subrange(0, 0)));
    assert(rest@ =~= orig.subrange(0, orig.len() as int));
    while rest.len() > 0
        invariant
            0 <= k <= orig.len(),
            rest@ == orig.subrange(k, orig.len() as int),
            entries_model(entries@) == primary_entries(orig.subrange(0, k)),
            texts(paths@) == paths_of(orig.subrange(0, k)),
            bases@.len() == entries@.len(),
            forall|i: int| 0 <= i < bases@.len() ==> opt_text(#[trigger] bases@[i]) == split_base(file_name(entries@[i].path@)),
        decreases rest.len(),
    {
        let f = rest.remove(0);
        let ghost pre = orig.subrange(0, k);
        let ghost now = orig.subrange(0, k + 1);
        assert(f == orig[k]);
        assert(now.drop_last() =~= pre);
        assert(now.last() == f);
        assert(rest@ =~= orig.subrange(k + 1, orig.len() as int));
        let ghost prev = entries_model(entries@);
        let name = path_file_name(f.path.as_str());
        let ghost pth = f.path@;
        let ghost paths0 = paths@;
        paths.push(f.path.clone());
        assert(texts(paths@) =~= paths_of(now)) by {
            assert(texts(paths@) =~= texts(paths0).push(pth));
            assert(paths_of(now) =~= paths_of(pre).push(pth));
        }
        if is_companion_name(name.as_str()) {
        } else {
            match detect_split_base(name.as_str()) {
                Some(base) => {
                    let mut j: usize = 0;
                    let mut found = false;
                    while j < entries.len()
                        invariant
                            j <= entries.len(),
                            prev == entries_model(entries@),
                            bases@.len() == entries@.len(),
                            forall|i: int| 0 <= i < bases@.len() ==> opt_text(#[trigger] bases@[i]) == split_base(file_name(entries@[i].path@)),
                            forall|i: int| 0 <= i < j ==> !(#[trigger] starts_set(base@)(prev[i])),
                            found ==> j < entries.len() && starts_set(base@)(prev[j as int]),
                        ensures
                            found ==> j < entries.len() && starts_set(base@)(prev[j as int]),
                            !found ==> j == entries.len(),
                            forall|i: int| 0 <= i < j ==> !(#[trigger] starts_set(base@)(prev[i])),
                        decreases entries.len() - j,
                    {
                        assert(prev[j as int] == entries@[j as int]@);
                        assert(opt_text(bases@[j as int]) == split_base(file_name(entries@[j as int].path@)));
                        if same_text(&bases[j], &base) {
                            found = true;
                            break;
                        }
                        j = j + 1;
                    }
                    if found {
                        proof {
                            lemma_first_where(prev, starts_set(base@), j as int);
                        }
                        let ghost v0 = entries@;
                        let mut e = entries.remove(j);
                        let ghost e0 = e;
                        e.is_split = true;
                        e.split_parts.push(f.path);
                        proof {
                            assert(texts(e.split_parts@) =~= texts(e0.split_parts@).push(pth));
                        }
                        put_back(&mut entries, j, e);
                        proof {
                            lemma_replace(v0, j as int, e);
                            assert forall|i: int| 0 <= i < entries@.len() implies (#[trigger] entries@[i]).path@ == v0[i].path@ by {
                                if i != j {
                                    assert(entries@[i] == v0[i]);
                                }
                            }
                        }
                    } else {
                        proof {
                            assert(first_where(prev, starts_set(base@)) is None);
                        }
                        let e = make_entry(f);
                        entries.push(e);
                        assert(entries_model(entries@) =~= prev.push(e@));
                        bases.push(Some(base));
                    }
                },
                None => {
                    let e = make_entry(f);
                    entries.push(e);
                    assert(entries_model(entries@) =~= prev.push(e@));
                    bases.push(None);
                },
            }
        }
        proof {
            k = k + 1;
        }
    }
    assert(orig.subrange(0, k) =~= orig);
    (entries, paths)
}

/// Second pass of the catalogue: attach companion files.
fn companion_pass(entries: &mut Vec<ModelEntry>, paths: &Vec<String>)
    ensures
        entries_model(final(entries)@) == attach_companions(entries_model(old(entries)@), texts(paths@)),
{
    let ghost start = entries_model(entries@);
    let mut i: usize = 0;
    assert(texts(paths@).subrange(0, 0) =~= Seq::<Seq<char>>::empty());
    while i < paths.len()
        invariant
            i <= paths.len(),
            entries_model(entries@) == attach_companions(start, texts(paths@).subrange(0, i as int)),
        decreases paths.len() - i,
    {
        let ghost ps = texts(paths@).subrange(0, i + 1);
        assert(ps.drop_last() =~= texts(paths@).subrange(0, i as int));
        assert(ps.last() == paths@[i as int]@);
        let ghost prev = entries_model(entries@);
        let p = &paths[i];
        let name = path_file_name(p.as_str());
        if is_companion_name(name.as_str()) {
            let dir = path_parent(p.as_str());
            let mut j: usize = 0;
            let mut found = false;
            while j < entries.len()
                invariant_except_break
                    !found,
                invariant
                    j <= entries.len(),
                    prev == entries_model(entries@),
                    forall|m: int| 0 <= m < j ==> !(#[trigger] free_in_dir(dir@)(prev[m])),
                ensures
                    found ==> j < entries.len() && free_in_dir(dir@)(prev[j as int]),
                    !found ==> j == entries.len(),
                    forall|m: int| 0 <= m < j ==> !(#[trigger] free_in_dir(dir@)(prev[m])),
                decreases entries.len() - j,
            {
                assert(prev[j as int] == entries@[j as int]@);
                let edir = path_parent(entries[j].path.as_str());
                if edir == dir && entries[j].mmproj_path.is_none() {
                    assert(parent_dir(prev[j as int].path) == dir@);
                    assert(prev[j as int].mmproj_path is None);
                    assert(free_in_dir(dir@)(prev[j as int]));
                    found = true;
                    break;
                }
                j = j + 1;
            }
            if found {
                proof {
                    lemma_first_where(prev, free_in_dir(dir@), j as int);
                }
                let ghost v0 = entries@;
                let mut e = entries.remove(j);
                e.mmproj_path = Some(p.clone());
                put_back(entries, j, e);
                proof {
                    lemma_replace(v0, j as int, e);
                }
            } else {
                proof {
                    assert(first_where(prev, free_in_dir(dir@)) is None);
                }
            }
        }
        i = i + 1;
    }
    assert(texts(paths@).subrange(0, i as int) =~= texts(paths@));
}

/// Build the model catalogue from the `.gguf` files found under a directory.
/// The files are sorted by path; then each file that is not a companion
/// either starts an entry or, as a later part of a split set, joins the
/// entry of the set's first part; then each companion goes to the first
/// entry of its directory that has none yet.
pub fn scan_directory(files: Vec<FoundFile>) -> (r: Vec<ModelEntry>)
    ensures
        exists|sorted: Seq<FoundFile>|
            sorted.to_multiset() == files@.to_multiset() && paths_sorted(sorted) && entries_model(r@)
                == catalog(sorted),
{
    let sorted = sort_found_files(files);
    let ghost s = sorted@;
    let (mut entries, paths) = primary_pass(sorted);
    companion_pass(&mut entries, &paths);
    assert(entries_model(entries@) == catalog(s));
    entries
}

/// `-00001-of-00003.gguf`: the end of the name of the first of three parts.
pub open spec fn first_of_three() -> Seq<char> {
    seq!['-', '0', '0', '0', '0', '1', '-', 'o', 'f', '-', '0', '0', '0', '0', '3', '.', 'g', 'g', 'u', 'f']
}

/// The split base of `<base>-00001-of-00003.gguf` is `<base>`.
pub proof fn split_base_of_first_part(base: Seq<char>)
    ensures
        split_base(base + first_of_three()) == Some(base),
{
    let n = base + first_of_three();
    let l = base.len() as int;
    assert(n.subrange(n.len() - 5, n.len() as int) =~= gguf_ext());
    let m = n.subrange(0, n.len() - 5);
    assert(m.len() == l + 15);
    assert forall|k: int| 0 <= k < l implies m[k] == base[k] by {}
    let tail = seq!['-', '0', '0', '0', '0', '1', '-', 'o', 'f', '-', '0', '0', '0', '0', '3'];
    assert forall|k: int| 0 <= k < 15 implies m[l + k] == tail[k] by {}
    assert(last_index_of(m, '-', l + 15) == last_index_of(m, '-', l + 14));
    assert(last_index_of(m, '-', l + 14) == last_index_of(m, '-', l + 13));
    assert(last_index_of(m, '-', l + 13) == last_index_of(m, '-', l + 12));
    assert(last_index_of(m, '-', l + 12) == last_index_of(m, '-', l + 11));
    assert(last_index_of(m, '-', l + 11) == last_index_of(m, '-', l + 10));
    assert(last_index_of(m, '-', l + 10) == l + 9);
    assert(last_index_of(m, '-', l + 9) == last_index_of(m, '-', l + 8));
    assert(last_index_of(m, '-', l + 8) == last_index_of(m, '-', l + 7));
    assert(last_index_of(m, '-', l + 7) == l + 6);
    assert(last_index_of(m, '-', l + 6) == last_index_of(m, '-', l + 5));
    assert(last_index_of(m, '-', l + 5) == last_index_of(m, '-', l + 4));
    assert(last_index_of(m, '-', l + 4) == last_index_of(m, '-', l + 3));
    assert(last_index_of(m, '-', l + 3) == last_index_of(m, '-', l + 2));
    assert(last_index_of(m, '-', l + 2) == last_index_of(m, '-', l + 1));
    assert(last_index_of(m, '-', l + 1) == l);
    assert(all_digits(m.subrange(l + 10, l + 15)));
    assert(all_digits(m.subrange(l + 1, l + 6)));
    assert(m.subrange(l + 7, l + 9) =~= seq!['o', 'f']);
    assert(m.subrange(0, l) =~= base);
}

/// The name of part `d1` of `d2` of the split set `base`:
/// `<base>-<d1>-of-<d2>.gguf`.
pub open spec fn part_name(base: Seq<char>, d1: Seq<char>, d2: Seq<char>) -> Seq<char> {
    base + seq!['-'] + d1 + seq!['-', 'o', 'f', '-'] + d2 + gguf_ext()
}

proof fn lemma_last_skip(s: Seq<char>, c: char, lo: int, end: int)
    requires
        0 <= lo <= end <= s.len(),
        forall|k: int| lo <= k < end ==> s[k] != c,
    ensures
        last_index_of(s, c, end) == last_index_of(s, c, lo),
    decreases end - lo,
{
    if end > lo {
        lemma_last_skip(s, c, lo, end - 1);
    }
}

/// Every name `<base>-<digits>-of-<digits>.gguf`, with two non-empty runs
/// of digits, is a part of the split set `<base>`.
pub proof fn split_base_of_part(base: Seq<char>, d1: Seq<char>, d2: Seq<char>)
    requires
        d1.len() > 0,
        d2.len() > 0,
        all_digits(d1),
        all_digits(d2),
    ensures
        split_base(part_name(base, d1, d2)) == Some(base),
{
    let n = part_name(base, d1, d2);
    assert(n.subrange(n.len() - 5, n.len() as int) =~= gguf_ext());
    let m = n.subrange(0, n.len() - 5);
    let l = base.len() as int;
    let q = l + 1 + d1.len();
    let e = q + 4 + d2.len();
    assert(m.len() == e);
    assert(m =~= base + seq!['-'] + d1 + seq!['-', 'o', 'f', '-'] + d2);
    assert forall|k: int| q + 4 <= k < e implies m[k] != '-' by {
        assert(m[k] == d2[k - q - 4]);
    }
    lemma_last_skip(m, '-', q + 4, e);
    assert(last_index_of(m, '-', q + 4) == q + 3);
    assert(last_index_of(m, '-', q + 3) == last_index_of(m, '-', q + 2));
    assert(last_index_of(m, '-', q + 2) == last_index_of(m, '-', q + 1));
    assert(last_index_of(m, '-', q + 1) == q);
    assert forall|k: int| l + 1 <= k < q implies m[k] != '-' by {
        assert(m[k] == d1[k - l - 1]);
    }
    lemma_last_skip(m, '-', l + 1, q);
    assert(last_index_of(m, '-', l + 1) == l);
    assert(m.subrange(q + 4, e) =~= d2);
    assert(m.subrange(l + 1, q) =~= d1);
    assert(m.subrange(q + 1, q + 3) =~= seq!['o', 'f']);
    assert(m.subrange(0, l) =~= base);
}

/// A name is a part of the split set `<base>` only when it reads
/// `<base>-<digits>-of-<digits>.gguf` with two non-empty runs of digits.
pub proof fn split_base_is_part(name: Seq<char>, base: Seq<char>)
    requires
        split_base(name) == Some(base),
    ensures
        exists|d1: Seq<char>, d2: Seq<char>|
            d1.len() > 0 && d2.len() > 0 && all_digits(d1) && all_digits(d2) && name == part_name(
                base,
                d1,
                d2,
            ),
{
    let m = name.subrange(0, name.len() - 5);
    let a = last_index_of(m, '-', m.len() as int);
    lemma_last_index_of(m, '-', m.len() as int);
    lemma_last_index_of(m, '-', a);
    let b = last_index_of(m, '-', a);
    lemma_last_index_of(m, '-', b);
    let c = last_index_of(m, '-', b);
    let d1 = m.subrange(c + 1, b);
    let d2 = m.subrange(a + 1, m.len() as int);
    assert(m.subrange(b + 1, a).len() == 2);
    assert(m[b + 1] == m.subrange(b + 1, a)[0]);
    assert(m[b + 2] == m.subrange(b + 1, a)[1]);
    assert(name.subrange(name.len() - 5, name.len() as int) == gguf_ext());
    assert(name =~= part_name(base, d1, d2)) by {
        assert(name =~= m + name.subrange(name.len() - 5, name.len() as int));
        assert(m =~= m.subrange(0, c) + seq!['-'] + d1 + seq!['-', 'o', 'f', '-'] + d2);
    }
}

/// No two files share a path, as in one directory tree.
pub open spec fn distinct_paths(files: Seq<FoundFile>) -> bool {
    forall|i: int, j: int| 0 <= i < j < files.len() ==> files[i].path@ != files[j].path@
}

proof fn lemma_distinct_transfer(f: Seq<FoundFile>, t: Seq<FoundFile>)
    requires
        distinct_paths(f),
        t.to_multiset() == f.to_multiset(),
    ensures
        distinct_paths(t),
{
    f.to_multiset_ensures();
    t.to_multiset_ensures();
    assert(f.no_duplicates()) by {
        assert forall|i: int, j: int| 0 <= i < f.len() && 0 <= j < f.len() && i != j implies f[i] != f[j] by {
            if i < j {
                assert(f[i].path@ != f[j].path@);
            } else {
                assert(f[j].path@ != f[i].path@);
            }
        }
    }
    f.lemma_multiset_has_no_duplicates();
    t.lemma_multiset_has_no_duplicates_conv();
    assert forall|i: int, j: int| 0 <= i < j < t.len() implies t[i].path@ != t[j].path@ by {
        if t[i].path@ == t[j].path@ {
            assert(t[i] != t[j]);
            assert(t.contains(t[i]));
            assert(t.contains(t[j]));
            assert(t.to_multiset().count(t[i]) > 0);
            assert(t.to_multiset().count(t[j]) > 0);
            assert(f.to_multiset().count(t[i]) > 0);
            assert(f.to_multiset().count(t[j]) > 0);
            assert(f.contains(t[i]));
            assert(f.contains(t[j]));
            let a = choose|a: int| 0 <= a < f.len() && f[a] == t[i];
            let b = choose|b: int| 0 <= b < f.len() && f[b] == t[j];
            if a < b {
                assert(f[a].path@ != f[b].path@);
            } else if b < a {
                assert(f[b].path@ != f[a].path@);
            }
        }
    }
}

proof fn lemma_sorted_unique(s1: Seq<FoundFile>, s2: Seq<FoundFile>)
    requires
        s1.to_multiset() == s2.to_multiset(),
        paths_sorted(s1),
        paths_sorted(s2),
        distinct_paths(s1),
    ensures
        s1 == s2,
    decreases s1.len(),
{
    s1.to_multiset_ensures();
    s2.to_multiset_ensures();
    if s1.len() == 0 {
        assert(s2.len() == 0);
        assert(s1 =~= s2);
    } else {
        let x = s1[0];
        let y = s2[0];
        assert(s1.contains(x));
        assert(s1.to_multiset().count(x) > 0);
        assert(s2.to_multiset().count(x) > 0);
        assert(s2.contains(x));
        assert(s2.contains(y));
        assert(s2.to_multiset().count(y) > 0);
        assert(s1.to_multiset().count(y) > 0);
        assert(s1.contains(y));
        let i = choose|i: int| 0 <= i < s1.len() && s1[i] == y;
        let j = choose|j: int| 0 <= j < s2.len() && s2[j] == x;
        if i > 0 {
            assert(lex_le(x.path@, y.path@));
        }
        if j > 0 {
            assert(lex_le(y.path@, x.path@));
        }
        if i > 0 && j > 0 {
            crate::text::lemma_lex_antisym(x.path@, y.path@);
            assert(s1[0].path@ != s1[i].path@);
        }
        assert(x == y);
        let r1 = s1.remove(0);
        let r2 = s2.remove(0);
        assert(r1.to_multiset() == r2.to_multiset());
        assert forall|a: int, b: int| 0 <= a < b < r1.len() implies lex_le(r1[a].path@, r1[b].path@) by {
            assert(r1[a] == s1[a + 1] && r1[b] == s1[b + 1]);
        }
        assert forall|a: int, b: int| 0 <= a < b < r2.len() implies lex_le(r2[a].path@, r2[b].path@) by {
            assert(r2[a] == s2[a + 1] && r2[b] == s2[b + 1]);
        }
        assert forall|a: int, b: int| 0 <= a < b < r1.len() implies r1[a].path@ != r1[b].path@ by {
            assert(r1[a] == s1[a + 1] && r1[b] == s1[b + 1]);
        }
        lemma_sorted_unique(r1, r2);
        assert(s1 =~= seq![x] + r1);
        assert(s2 =~= seq![y] + r2);
    }
}

/// Listing the same files in another order gives the same catalogue: the
/// files are sorted by path before anything else, and in a directory tree
/// no two files share a path.
pub proof fn scan_order_stable(
    found1: Seq<FoundFile>,
    found2: Seq<FoundFile>,
    sorted1: Seq<FoundFile>,
    sorted2: Seq<FoundFile>,
)
    requires
        found1.to_multiset() == found2.to_multiset(),
        distinct_paths(found1),
        sorted1.to_multiset() == found1.to_multiset(),
        paths_sorted(sorted1),
        sorted2.to_multiset() == found2.to_multiset(),
        paths_sorted(sorted2),
    ensures
        sorted1 == sorted2,
        catalog(sorted1) == catalog(sorted2),
{
    lemma_distinct_transfer(found1, sorted1);
    lemma_sorted_unique(sorted1, sorted2);
}

} // verus!
