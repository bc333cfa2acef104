//! Rules of the file store: relative-path sanitising, file typing, listing
//! order, save targets and retention. The file system itself is the caller's.

use vstd::prelude::*;
use vstd::string::{StrSliceExecFns, StringExecFns};
use crate::text::push_char;

verus! {

/// Why a user-supplied relative path was refused.
#[derive(Debug, Clone, Copy, PartialEq, Eq, Structural)]
pub enum PathError {
    Absolute,
    ParentDir,
    DriveLetter,
    ComponentTooLong,
    NotAFileName,
}

/// Longest accepted path component, in UTF-8 bytes.
pub const MAX_COMPONENT_LEN: usize = 255;

/// Bytes that the UTF-8 encoding of `c` takes.
pub open spec fn utf8_width(c: char) -> nat {
    let u = c as u32;
    if u < 0x80 {
        1
    } else if u < 0x800 {
        2
    } else if u < 0x10000 {
        3
    } else {
        4
    }
}

/// Bytes that the UTF-8 encoding of `s` takes.
pub open spec fn utf8_len(s: Seq<char>) -> nat
    decreases s.len(),
{
    if s.len() == 0 {
        0
    } else {
        utf8_len(s.drop_last()) + utf8_width(s.last())
    }
}

/// Whether the UTF-8 encoding of `v` is longer than `limit` bytes.
fn utf8_longer_than(v: &Vec<char>, limit: usize) -> (r: bool)
    ensures
        r == (utf8_len(v@) > limit),
{
    let mut total: usize = 0;
    let mut i: usize = 0;
    while i < v.len()
        invariant
            i <= v@.len(),
            total == utf8_len(v@.subrange(0, i as int)),
            total <= limit,
        decreases v@.len() - i,
    {
        let u = v[i] as u32;
        let w: usize = if u < 0x80 {
            1
        } else if u < 0x800 {
            2
        } else if u < 0x10000 {
            3
        } else {
            4
        };
        assert(v@.subrange(0, i + 1).drop_last() =~= v@.subrange(0, i as int));
        if w > limit - total {
            proof {
                lemma_utf8_len_prefix(v@, i + 1);
            }
            return true;
        }
        total = total + w;
        i = i + 1;
    }
    assert(v@.subrange(0, v@.len() as int) =~= v@);
    false
}

proof fn lemma_utf8_len_prefix(s: Seq<char>, m: int)
    requires
        0 <= m <= s.len(),
    ensures
        utf8_len(s.subrange(0, m)) <= utf8_len(s),
    decreases s.len() - m,
{
    if m < s.len() {
        lemma_utf8_len_prefix(s, m + 1);
        assert(s.subrange(0, m + 1).drop_last() =~= s.subrange(0, m));
    } else {
        assert(s.subrange(0, m) =~= s);
    }
}

/// The pieces of `s` between slashes, empty ones included.
pub open spec fn segments(s: Seq<char>) -> Seq<Seq<char>>
    decreases s.len(),
{
    if s.len() == 0 {
        seq![Seq::<char>::empty()]
    } else {
        let prev = segments(s.drop_last());
        if s.last() == '/' {
            prev.push(Seq::empty())
        } else {
            prev.update(prev.len() - 1, prev.last().push(s.last()))
        }
    }
}

/// A segment that names something: neither empty nor `.`.
pub open spec fn names_something(seg: Seq<char>) -> bool {
    seg.len() > 0 && seg != seq!['.']
}

pub open spec fn kept(segs: Seq<Seq<char>>) -> Seq<Seq<char>>
    decreases segs.len(),
{
    if segs.len() == 0 {
        Seq::empty()
    } else {
        kept(segs.drop_last()) + if names_something(segs.last()) {
            seq![segs.last()]
        } else {
            Seq::empty()
        }
    }
}

/// The components of a relative path.
pub open spec fn components(s: Seq<char>) -> Seq<Seq<char>> {
    kept(segments(s))
}

/// Components joined with `/`.
pub open spec fn join(cs: Seq<Seq<char>>) -> Seq<char>
    decreases cs.len(),
{
    if cs.len() == 0 {
        Seq::empty()
    } else if cs.len() == 1 {
        cs[0]
    } else {
        join(cs.drop_last()) + seq!['/'] + cs.last()
    }
}

pub open spec fn component_error(c: Seq<char>) -> Option<PathError> {
    if c == seq!['.', '.'] {
        Some(PathError::ParentDir)
    } else if c.contains(':') {
        Some(PathError::DriveLetter)
    } else if utf8_len(c) > MAX_COMPONENT_LEN {
        Some(PathError::ComponentTooLong)
    } else {
        None
    }
}

/// The error of the first refused component, if any.
pub open spec fn first_error(cs: Seq<Seq<char>>) -> Option<PathError>
    decreases cs.len(),
{
    if cs.len() == 0 {
        None
    } else {
        match first_error(cs.drop_last()) {
            Some(e) => Some(e),
            None => component_error(cs.last()),
        }
    }
}

/// The normalised form of a user-supplied relative path, or why it is refused.
pub open spec fn sanitized(s: Seq<char>) -> Result<Seq<char>, PathError> {
    if s.len() > 0 && s[0] == '/' {
        Err(PathError::Absolute)
    } else {
        match first_error(components(s)) {
            Some(e) => Err(e),
            None => Ok(join(components(s))),
        }
    }
}

proof fn lemma_segments_nonempty(s: Seq<char>)
    ensures
        segments(s).len() >= 1,
    decreases s.len(),
{
    if s.len() > 0 {
        lemma_segments_nonempty(s.drop_last());
    }
}

fn chars_contain(v: &Vec<char>, c: char) -> (r: bool)
    ensures
        r == v@.contains(c),
{
    let mut i: usize = 0;
    while i < v.len()
        invariant
            i <= v@.len(),
            forall|j: int| 0 <= j < i ==> v@[j] != c,
        decreases v@.len() - i,
    {
        if v[i] == c {
            assert(v@[i as int] == c);
            return true;
        }
        i = i + 1;
    }
    false
}

/// Checks a finished segment and appends it to `out` when it names something.
fn take_segment(out: &mut String, count: &mut usize, cur: &Vec<char>, Ghost(done): Ghost<Seq<Seq<char>>>) -> (r: Result<(), PathError>)
    requires
        old(out)@ == join(done),
        *old(count) == done.len(),
        first_error(done) is None,
        done.len() < usize::MAX,
    ensures
        ({
            let next = done + if names_something(cur@) {
                seq![cur@]
            } else {
                Seq::<Seq<char>>::empty()
            };
            &&& r is Ok <==> first_error(next) is None
            &&& r matches Err(e) ==> first_error(next) == Some(e)
            &&& r is Ok ==> final(out)@ == join(next) && *final(count) == next.len()
        }),
{
    let ghost next = done + if names_something(cur@) {
        seq![cur@]
    } else {
        Seq::<Seq<char>>::empty()
    };
    let is_dot = cur.len() == 1 && cur[0] == '.';
    assert(is_dot <==> cur@ == seq!['.']) by {
        if cur@ == seq!['.'] {
            assert(cur@.len() == 1);
        }
        if is_dot {
            assert(cur@ =~= seq!['.']);
        }
    }
    if cur.len() == 0 || is_dot {
        assert(next =~= done);
        return Ok(());
    }
    assert(next.drop_last() =~= done);
    assert(next.last() == cur@);
    let is_parent = cur.len() == 2 && cur[0] == '.' && cur[1] == '.';
    assert(is_parent <==> cur@ == seq!['.', '.']) by {
        if cur@ == seq!['.', '.'] {
            assert(cur@.len() == 2);
            assert(cur@[0] == '.' && cur@[1] == '.');
        }
        if is_parent {
            assert(cur@ =~= seq!['.', '.']);
        }
    }
    if is_parent {
        return Err(PathError::ParentDir);
    }
    if chars_contain(cur, ':') {
        return Err(PathError::DriveLetter);
    }
    if utf8_longer_than(cur, MAX_COMPONENT_LEN) {
        return Err(PathError::ComponentTooLong);
    }
    if *count > 0 {
        push_char(out, '/');
    }
    let mut i: usize = 0;
    let ghost base = out@;
    while i < cur.len()
        invariant
            i <= cur@.len(),
            out@ == base + cur@.subrange(0, i as int),
        decreases cur@.len() - i,
    {
        push_char(out, cur[i]);
        i = i + 1;
        assert(out@ =~= base + cur@.subrange(0, i as int));
    }
    assert(cur@.subrange(0, cur@.len() as int) =~= cur@);
    *count = *count + 1;
    proof {
        if done.len() == 0 {
            assert(join(next) == cur@);
            assert(out@ =~= cur@);
        } else {
            assert(out@ =~= join(done) + seq!['/'] + cur@);
        }
    }
    Ok(())
}

/// A refused component among the completed segments of a prefix makes the
/// whole path refused with the same error.
proof fn lemma_first_error_prefix(s: Seq<char>, m: int, done: Seq<Seq<char>>, e: PathError)
    requires
        0 <= m <= s.len(),
        done == kept(segments(s.subrange(0, m)).drop_last()),
        first_error(done) == Some(e),
        !(s.len() > 0 && s[0] == '/'),
    ensures
        sanitized(s) == Err::<Seq<char>, PathError>(e),
{
    lemma_first_error_grows(s, m, e);
}

proof fn lemma_first_error_grows(s: Seq<char>, m: int, e: PathError)
    requires
        0 <= m <= s.len(),
        first_error(kept(segments(s.subrange(0, m)).drop_last())) == Some(e),
    ensures
        first_error(components(s)) == Some(e),
    decreases s.len() - m,
{
    let p = s.subrange(0, m);
    lemma_segments_nonempty(p);
    let segs = segments(p);
    assert(segs.drop_last().push(segs.last()) =~= segs);
    lemma_first_error_append(kept(segs.drop_last()), if names_something(segs.last()) {
        seq![segs.last()]
    } else {
        Seq::<Seq<char>>::empty()
    }, e);
    if m == s.len() {
        assert(p =~= s);
    } else {
        let q = s.subrange(0, m + 1);
        assert(q.drop_last() =~= p);
        lemma_segments_nonempty(q);
        if s[m] == '/' {
            assert(segments(q).drop_last() =~= segs);
        } else {
            assert(segments(q).drop_last() =~= segs.drop_last());
        }
        lemma_first_error_grows(s, m + 1, e);
    }
}

proof fn lemma_first_error_append(a: Seq<Seq<char>>, b: Seq<Seq<char>>, e: PathError)
    requires
        first_error(a) == Some(e),
    ensures
        first_error(a + b) == Some(e),
    decreases b.len(),
{
    if b.len() == 0 {
        assert(a + b =~= a);
    } else {
        lemma_first_error_append(a, b.drop_last(), e);
        assert((a + b).drop_last() =~= a + b.drop_last());
    }
}


// ---------------------------------------------------------------- file types

/// `c` is `l`, or the upper-case form of the lower-case ASCII letter `l`.
pub open spec fn same_letter(c: char, l: char) -> bool {
    c == l || ('a' <= l <= 'z' && c as u32 + 32 == l as u32)
}

/// `s` ends with `suffix` (given in lower case), ignoring ASCII case.
pub open spec fn ends_with_ci(s: Seq<char>, suffix: Seq<char>) -> bool {
    &&& s.len() >= suffix.len()
    &&& forall|i: int| 0 <= i < suffix.len() ==> same_letter(#[trigger] s[s.len() - suffix.len() + i], suffix[i])
}

pub open spec fn file_type_of(name: Seq<char>) -> Seq<char> {
    if ends_with_ci(name, ".txt"@) {
        "raw_frames"@
    } else if ends_with_ci(name, ".bin"@) || ends_with_ci(name, ".dat"@) {
        "binary"@
    } else if ends_with_ci(name, ".json"@) {
        "json"@
    } else {
        "unknown"@
    }
}

fn ends_with_ignoring_case(s: &str, suffix: &str) -> (r: bool)
    ensures
        r == ends_with_ci(s@, suffix@),
{
    let n = s.unicode_len();
    let k = suffix.unicode_len();
    if n < k {
        return false;
    }
    let mut i: usize = 0;
    while i < k
        invariant
            i <= k <= n,
            n as int == s@.len(),
            k as int == suffix@.len(),
            forall|j: int| 0 <= j < i ==> same_letter(#[trigger] s@[n - k + j], suffix@[j]),
        decreases k - i,
    {
        let c = s.get_char(n - k + i);
        let l = suffix.get_char(i);
        if !(c == l || ('a' <= l && l <= 'z' && c as u32 + 32 == l as u32)) {
            assert(!same_letter(s@[n - k + i], suffix@[i as int]));
            return false;
        }
        i = i + 1;
    }
    true
}

// ---------------------------------------------------------------- listing

/// A directory entry as the file system reported it.
#[derive(Debug, Clone)]
pub struct DirEntry {
    /// Path relative to the store's root, `/`-separated.
    pub path: String,
    pub is_file: bool,
    pub size_bytes: u64,
    pub created_at: i64,
}

#[derive(Debug, Clone)]
pub struct FileInfo {
    /// Path relative to the store's root, `/`-separated.
    pub filename: String,
    pub size_bytes: u64,
    pub created_at: i64,
    pub file_type: String,
}

pub struct FileInfoView {
    pub filename: Seq<char>,
    pub size_bytes: u64,
    pub created_at: i64,
    pub file_type: Seq<char>,
}

impl View for FileInfo {
    type V = FileInfoView;

    open spec fn view(&self) -> FileInfoView {
        FileInfoView {
            filename: self.filename@,
            size_bytes: self.size_bytes,
            created_at: self.created_at,
            file_type: self.file_type@,
        }
    }
}

pub open spec fn info_of(e: DirEntry) -> FileInfoView {
    FileInfoView {
        filename: e.path@,
        size_bytes: e.size_bytes,
        created_at: e.created_at,
        file_type: file_type_of(e.path@),
    }
}

/// The files among the entries, described.
pub open spec fn file_infos(es: Seq<DirEntry>) -> Seq<FileInfoView>
    decreases es.len(),
{
    if es.len() == 0 {
        Seq::empty()
    } else {
        file_infos(es.drop_last()) + if es.last().is_file {
            seq![info_of(es.last())]
        } else {
            Seq::empty()
        }
    }
}

pub open spec fn infos_view(s: Seq<FileInfo>) -> Seq<FileInfoView> {
    s.map_values(|f: FileInfo| f@)
}

/// The store rooted at `base`.
#[derive(Debug, Clone)]
pub struct FileManager {
    pub base: String,
}

/// Where a save goes: a sanitised directory (empty for the root), the file
/// name, and the path relative to the root that is reported back.
#[derive(Debug, Clone)]
pub struct SavePlan {
    pub dir: String,
    pub file_name: String,
    pub relative_path: String,
}

/// Bytes to store under a file name.
#[derive(Debug, Clone)]
pub struct ProcessedDataFile {
    pub filename: String,
    pub bytes: Vec<u8>,
}

/// A file name is one component.
pub open spec fn single_name(p: Seq<char>) -> bool {
    p.len() > 0 && !p.contains('/')
}

/// The plan for saving `filename` under `dir`, or why it is refused.
pub open spec fn save_plan_of(dir: Option<Seq<char>>, filename: Seq<char>) -> Result<(Seq<char>, Seq<char>, Seq<char>), PathError> {
    let d = match dir {
        None => Ok(Seq::<char>::empty()),
        Some(d) => sanitized(d),
    };
    match d {
        Err(e) => Err(e),
        Ok(d) => match sanitized(filename) {
            Err(e) => Err(e),
            Ok(f) => if !single_name(f) {
                Err(PathError::NotAFileName)
            } else {
                Ok((d, f, if d.len() == 0 {
                    f
                } else {
                    d + seq!['/'] + f
                }))
            },
        },
    }
}

fn contains_char(s: &String, c: char) -> (r: bool)
    ensures
        r == s@.contains(c),
{
    let n = s.as_str().unicode_len();
    let mut i: usize = 0;
    while i < n
        invariant
            i <= n,
            n as int == s@.len(),
            forall|j: int| 0 <= j < i ==> s@[j] != c,
        decreases n - i,
    {
        if s.as_str().get_char(i) == c {
            return true;
        }
        i = i + 1;
    }
    false
}

impl FileManager {
    pub fn new(data_directory: &str) -> (r: Self)
        ensures
            r.base@ == data_directory@,
    {
        FileManager { base: String::from_str(data_directory) }
    }

    /// Normalises a user-supplied relative path: no absolute path, no `..`, no
    /// drive letter, no overlong component; empty and `.` components dropped.
    pub fn sanitize_rel_path(input: &str) -> (r: Result<String, PathError>)
        ensures
            match sanitized(input@) {
                Ok(p) => r matches Ok(s) && s@ == p,
                Err(e) => r == Err::<String, PathError>(e),
            },
    {
        let n = input.unicode_len();
        if n > 0 && input.get_char(0) == '/' {
            return Err(PathError::Absolute);
        }
        let mut out = String::new();
        let mut count: usize = 0;
        let mut cur: Vec<char> = Vec::new();
        let ghost mut done: Seq<Seq<char>> = Seq::empty();
        let mut i: usize = 0;
        assert(input@.subrange(0, 0) =~= Seq::<char>::empty());
        while i < n
            invariant
                i <= n,
                n as int == input@.len(),
                !(n > 0 && input@[0] == '/'),
                kept(segments(input@.subrange(0, i as int)).drop_last()) == done,
                segments(input@.subrange(0, i as int)).last() == cur@,
                segments(input@.subrange(0, i as int)).len() >= 1,
                out@ == join(done),
                count == done.len(),
                2 * done.len() + (if cur@.len() > 0 {
                    1int
                } else {
                    0int
                }) <= i,
                first_error(done) is None,
            decreases n - i,
        {
            let c = input.get_char(i);
            let ghost prefix = input@.subrange(0, i as int);
            let ghost segs = segments(prefix);
            assert(input@.subrange(0, i + 1).drop_last() =~= prefix);
            assert(input@.subrange(0, i + 1).last() == c);
            if c == '/' {
                let ghost next = done + if names_something(cur@) {
                    seq![cur@]
                } else {
                    Seq::<Seq<char>>::empty()
                };
                proof {
                    assert(segments(input@.subrange(0, i + 1)) == segs.push(Seq::<char>::empty()));
                    assert(segs.push(Seq::<char>::empty()).drop_last() =~= segs);
                    assert(segs.drop_last().push(segs.last()) =~= segs);
                    assert(kept(segs) == next);
                }
                match take_segment(&mut out, &mut count, &cur, Ghost(done)) {
                    Ok(()) => {},
                    Err(e) => {
                        proof {
                            lemma_first_error_prefix(input@, i as int + 1, next, e);
                        }
                        return Err(e);
                    },
                }
                proof {
                    done = next;
                }
                cur = Vec::new();
                assert(cur@ =~= Seq::<char>::empty());
            } else {
                cur.push(c);
                proof {
                    let s2 = segs.update(segs.len() - 1, segs.last().push(c));
                    assert(segments(input@.subrange(0, i + 1)) == s2);
                    assert(s2.drop_last() =~= segs.drop_last());
                }
            }
            i = i + 1;
        }
        let ghost next = done + if names_something(cur@) {
            seq![cur@]
        } else {
            Seq::<Seq<char>>::empty()
        };
        let ghost segs = segments(input@.subrange(0, i as int));
        assert(input@.subrange(0, i as int) =~= input@);
        assert(segs.drop_last().push(segs.last()) =~= segs);
        assert(components(input@) == next);
        match take_segment(&mut out, &mut count, &cur, Ghost(done)) {
            Ok(()) => Ok(out),
            Err(e) => Err(e),
        }
    }

    /// Kind of a stored file, from its extension.
    pub fn determine_file_type(filename: &str) -> (r: String)
        ensures
            r@ == file_type_of(filename@),
    {
        if ends_with_ignoring_case(filename, ".txt") {
            String::from_str("raw_frames")
        } else if ends_with_ignoring_case(filename, ".bin") || ends_with_ignoring_case(filename, ".dat") {
            String::from_str("binary")
        } else if ends_with_ignoring_case(filename, ".json") {
            String::from_str("json")
        } else {
            String::from_str("unknown")
        }
    }

    /// The files among `entries` of the root, newest `created_at` first.
    pub fn list_files(&self, entries: &Vec<DirEntry>) -> (r: Vec<FileInfo>)
        ensures
            infos_view(r@).to_multiset() == file_infos(entries@).to_multiset(),
            forall|i: int, j: int|
                0 <= i < j < r@.len() ==> (#[trigger] r@[i]).created_at >= (#[trigger] r@[j]).created_at,
    {
        let mut out: Vec<FileInfo> = Vec::new();
        let mut i: usize = 0;
        assert(infos_view(out@) =~= file_infos(entries@.subrange(0, 0)));
        while i < entries.len()
            invariant
                i <= entries@.len(),
                infos_view(out@).to_multiset() == file_infos(entries@.subrange(0, i as int)).to_multiset(),
                forall|x: int, y: int|
                    0 <= x < y < out@.len() ==> (#[trigger] out@[x]).created_at >= (#[trigger] out@[y]).created_at,
            decreases entries@.len() - i,
        {
            let e = &entries[i];
            assert(entries@.subrange(0, i + 1).drop_last() =~= entries@.subrange(0, i as int));
            if e.is_file {
                let item = FileInfo {
                    filename: e.path.clone(),
                    size_bytes: e.size_bytes,
                    created_at: e.created_at,
                    file_type: Self::determine_file_type(e.path.as_str()),
                };
                let mut pos: usize = 0;
                while pos < out.len() && out[pos].created_at >= item.created_at
                    invariant
                        pos <= out@.len(),
                        forall|x: int| 0 <= x < pos ==> (#[trigger] out@[x]).created_at >= item.created_at,
                    decreases out@.len() - pos,
                {
                    pos = pos + 1;
                }
                let ghost before = out@;
                let ghost prev = file_infos(entries@.subrange(0, i as int));
                out.insert(pos, item);
                proof {
                    assert(infos_view(out@) =~= infos_view(before).insert(pos as int, item@));
                    vstd::seq_lib::to_multiset_insert(infos_view(before), pos as int, item@);
                    assert(file_infos(entries@.subrange(0, i + 1)) =~= prev.push(item@));
                    vstd::seq_lib::to_multiset_build(prev, item@);
                    assert forall|x: int, y: int|
                        0 <= x < y < out@.len() implies (#[trigger] out@[x]).created_at >= (#[trigger] out@[y]).created_at by {
                        if x < pos {
                            assert(out@[x] == before[x]);
                            if y < pos {
                                assert(out@[y] == before[y]);
                            } else if y > pos {
                                assert(out@[y] == before[y - 1]);
                                assert(before[x].created_at >= before[y - 1].created_at);
                            }
                        } else if x == pos {
                            assert(out@[y] == before[y - 1]);
                            if pos < before.len() {
                                assert(before[pos as int].created_at < item.created_at);
                                if y - 1 > pos {
                                    assert(before[pos as int].created_at >= before[y - 1].created_at);
                                }
                            }
                        } else {
                            assert(out@[x] == before[x - 1] && out@[y] == before[y - 1]);
                        }
                    }
                }
            } else {
                assert(file_infos(entries@.subrange(0, i + 1)) =~= file_infos(entries@.subrange(0, i as int)));
            }
            i = i + 1;
        }
        assert(entries@.subrange(0, entries@.len() as int) =~= entries@);
        out
    }

    /// Where `data` goes when saved at the root.
    pub fn save_processed_data(&self, data: &ProcessedDataFile) -> (r: Result<SavePlan, PathError>)
        ensures
            match save_plan_of(None, data.filename@) {
                Ok(p) => r matches Ok(plan) && plan.dir@ == p.0 && plan.file_name@ == p.1 && plan.relative_path@ == p.2,
                Err(e) => r matches Err(x) && x == e,
            },
    {
        self.save_at(None, data)
    }

    /// Where `data` goes when saved under the relative directory `rel_dir`.
    pub fn save_at(&self, rel_dir: Option<&str>, data: &ProcessedDataFile) -> (r: Result<SavePlan, PathError>)
        ensures
            match save_plan_of(
                match rel_dir {
                    Some(d) => Some(d@),
                    None => None,
                },
                data.filename@,
            ) {
                Ok(p) => r matches Ok(plan) && plan.dir@ == p.0 && plan.file_name@ == p.1 && plan.relative_path@ == p.2,
                Err(e) => r matches Err(x) && x == e,
            },
    {
        let dir = match rel_dir {
            None => String::new(),
            Some(d) => match Self::sanitize_rel_path(d) {
                Ok(s) => s,
                Err(e) => {
                    return Err(e);
                },
            },
        };
        let name = match Self::sanitize_rel_path(data.filename.as_str()) {
            Ok(s) => s,
            Err(e) => {
                return Err(e);
            },
        };
        if name.as_str().unicode_len() == 0 || contains_char(&name, '/') {
            return Err(PathError::NotAFileName);
        }
        let relative_path = if dir.as_str().unicode_len() == 0 {
            name.clone()
        } else {
            let mut p = dir.clone();
            push_char(&mut p, '/');
            p.append(name.as_str());
            p
        };
        Ok(SavePlan { dir, file_name: name, relative_path })
    }

    /// Names of the files past the first `max_files` of a newest-first
    /// listing: those that retention deletes.
    pub fn files_to_remove(files: &Vec<FileInfo>, max_files: usize) -> (r: Vec<String>)
        ensures
            r@.len() == if files@.len() > max_files {
                files@.len() - max_files
            } else {
                0
            },
            forall|i: int| 0 <= i < r@.len() ==> (#[trigger] r@[i])@ == files@[max_files + i].filename@,
    {
        let mut out: Vec<String> = Vec::new();
        if files.len() <= max_files {
            return out;
        }
        let count = files.len() - max_files;
        let mut j: usize = 0;
        while j < count
            invariant
                j <= count,
                count == files.len() - max_files,
                out@.len() == j,
                forall|k: int| 0 <= k < j ==> (#[trigger] out@[k])@ == files@[max_files + k].filename@,
            decreases count - j,
        {
            out.push(files[max_files + j].filename.clone());
            j = j + 1;
        }
        out
    }
}

} // verus!
