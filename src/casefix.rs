//! Repair of letter case in an extracted tree of headers and import
//! libraries, so that every name that a header's directives reference can
//! be found under exactly that name.
//!
//! The pass works on a listing of the tree and returns the file operations
//! to perform. First, each header or import library whose name is not all
//! lower case is given its lower-case form, unless a file of that name
//! already stands in its directory: by default the file is renamed; in the
//! mode that keeps both names it stays and a copy is made under the
//! lower-case name, for consumers that name the file as it was cased. Second, for each name that a directive
//! of some header references (its last path component), and for each header
//! whose name equals it ignoring ASCII case, a copy of that header is made
//! under the referenced name in the header's directory, unless a file of
//! that name already stands there. Existing files are never overwritten.
use vstd::prelude::*;

verus! {

/// One file of the tree: its directory, its name, and, for a header, the
/// names that its directives reference, as the directive scanner gives them.
pub struct TreeFile {
    pub dir: Vec<u8>,
    pub name: Vec<u8>,
    pub refs: Vec<Vec<u8>>,
}

/// What the pass sees of a file.
pub struct FileView {
    pub dir: Seq<u8>,
    pub name: Seq<u8>,
    pub refs: Seq<Seq<u8>>,
}

impl View for TreeFile {
    type V = FileView;

    open spec fn view(&self) -> FileView {
        FileView { dir: self.dir@, name: self.name@, refs: self.refs@.map_values(|v: Vec<u8>| v@) }
    }
}

/// The two operations the pass asks for.
#[derive(Clone, Copy, Debug, PartialEq, Eq, Structural)]
pub enum FixKind {
    /// Move `dir/from` to `dir/to`.
    Rename,
    /// Create `dir/to` with the contents of `dir/from`.
    Copy,
}

/// How the first phase gives a file its lower-case name.
#[derive(Clone, Copy, Debug, PartialEq, Eq, Structural)]
pub enum CaseMode {
    /// Rename the file.
    Rename,
    /// Keep the file and add a copy under the lower-case name.
    KeepBoth,
}

/// One file operation, within one directory.
#[derive(Debug)]
pub struct CaseFix {
    pub kind: FixKind,
    pub dir: Vec<u8>,
    pub from: Vec<u8>,
    pub to: Vec<u8>,
}

pub struct FixView {
    pub kind: FixKind,
    pub dir: Seq<u8>,
    pub from: Seq<u8>,
    pub to: Seq<u8>,
}

impl View for CaseFix {
    type V = FixView;

    open spec fn view(&self) -> FixView {
        FixView { kind: self.kind, dir: self.dir@, from: self.from@, to: self.to@ }
    }
}

pub open spec fn lower_byte(b: u8) -> u8 {
    if 65 <= b && b <= 90 {
        (b + 32) as u8
    } else {
        b
    }
}

/// A name with ASCII upper-case letters mapped to lower case.
pub open spec fn lower_bytes(s: Seq<u8>) -> Seq<u8> {
    s.map_values(|b: u8| lower_byte(b))
}

/// The name ends with `.` and the extension `ext`, after at least one byte.
pub open spec fn has_extension(name: Seq<u8>, ext: Seq<u8>) -> bool {
    &&& name.len() > ext.len() + 1
    &&& name[name.len() - ext.len() - 1] == 46
    &&& name.subrange(name.len() - ext.len(), name.len() as int) == ext
}

/// A header: the extension is `h`.
pub open spec fn is_header(name: Seq<u8>) -> bool {
    has_extension(name, seq![104u8])
}

/// An import library: the extension is `lib` or `Lib`.
pub open spec fn is_import_library(name: Seq<u8>) -> bool {
    has_extension(name, seq![108u8, 105u8, 98u8]) || has_extension(name, seq![76u8, 105u8, 98u8])
}

/// The file is one whose name the first phase puts in lower case.
pub open spec fn needs_lowering(name: Seq<u8>) -> bool {
    (is_header(name) || is_import_library(name)) && lower_bytes(name) != name
}

/// A file named `name` stands in directory `dir`.
pub open spec fn occupied(files: Seq<FileView>, dir: Seq<u8>, name: Seq<u8>) -> bool {
    exists|j: int| 0 <= j < files.len() && (#[trigger] files[j]).dir == dir && files[j].name == name
}

pub open spec fn is_separator(b: u8) -> bool {
    b == 47 || b == 92
}

/// The last path component of a referenced name.
pub open spec fn last_component(r: Seq<u8>) -> Seq<u8>
    decreases r.len(),
{
    if r.len() == 0 {
        r
    } else if is_separator(r.last()) {
        seq![]
    } else {
        last_component(r.drop_last()).push(r.last())
    }
}

/// The tree and the operations after the first phase has looked at the
/// first `i` files.
pub open spec fn lowering_pass(files: Seq<FileView>, mode: CaseMode, i: nat) -> (Seq<FileView>, Seq<FixView>)
    decreases i,
{
    if i == 0 {
        (files, seq![])
    } else {
        let (cur, fixes) = lowering_pass(files, mode, (i - 1) as nat);
        let f = cur[i - 1];
        let lower = lower_bytes(f.name);
        if needs_lowering(f.name) && !occupied(cur, f.dir, lower) {
            match mode {
                CaseMode::Rename => (
                    cur.update(i - 1, FileView { dir: f.dir, name: lower, refs: f.refs }),
                    fixes.push(FixView { kind: FixKind::Rename, dir: f.dir, from: f.name, to: lower }),
                ),
                CaseMode::KeepBoth => (
                    cur.push(FileView { dir: f.dir, name: lower, refs: f.refs }),
                    fixes.push(FixView { kind: FixKind::Copy, dir: f.dir, from: f.name, to: lower }),
                ),
            }
        } else {
            (cur, fixes)
        }
    }
}

/// The last components of the names referenced by the headers among the
/// first `i` files, in order.
pub open spec fn referenced_upto(files: Seq<FileView>, i: nat) -> Seq<Seq<u8>>
    decreases i,
{
    if i == 0 {
        seq![]
    } else {
        let f = files[i - 1];
        referenced_upto(files, (i - 1) as nat) + if is_header(f.name) {
            f.refs.map_values(|r: Seq<u8>| last_component(r))
        } else {
            seq![]
        }
    }
}

/// Header `f` answers the referenced name `r` ignoring ASCII case.
pub open spec fn answers(f: FileView, r: Seq<u8>) -> bool {
    is_header(f.name) && lower_bytes(f.name) == lower_bytes(r)
}

/// The tree and the operations after the copies for name `r` have been
/// considered against the first `h` files of `index`.
pub open spec fn copies_for(
    index: Seq<FileView>,
    r: Seq<u8>,
    state: (Seq<FileView>, Seq<FixView>),
    h: nat,
) -> (Seq<FileView>, Seq<FixView>)
    decreases h,
{
    if h == 0 {
        state
    } else {
        let (cur, fixes) = copies_for(index, r, state, (h - 1) as nat);
        let f = index[h - 1];
        if answers(f, r) && !occupied(cur, f.dir, r) {
            (
                cur.push(FileView { dir: f.dir, name: r, refs: f.refs }),
                fixes.push(FixView { kind: FixKind::Copy, dir: f.dir, from: f.name, to: r }),
            )
        } else {
            (cur, fixes)
        }
    }
}

/// The tree and the operations after the first `k` referenced names.
pub open spec fn copying_pass(index: Seq<FileView>, refs: Seq<Seq<u8>>, k: nat) -> (Seq<FileView>, Seq<FixView>)
    decreases k,
{
    if k == 0 {
        (index, seq![])
    } else {
        copies_for(index, refs[k - 1], copying_pass(index, refs, (k - 1) as nat), index.len())
    }
}

/// The whole pass: the tree it leaves and the operations, in order.
pub open spec fn case_pass(files: Seq<FileView>, mode: CaseMode) -> (Seq<FileView>, Seq<FixView>) {
    let (renamed, renames) = lowering_pass(files, mode, files.len());
    let refs = referenced_upto(renamed, renamed.len());
    let (result, copies) = copying_pass(renamed, refs, refs.len());
    (result, renames + copies)
}


fn lowercase_bytes(s: &Vec<u8>) -> (r: Vec<u8>)
    ensures
        r@ == lower_bytes(s@),
{
    let mut r: Vec<u8> = Vec::new();
    for k in 0..s.len()
        invariant
            r@ == lower_bytes(s@.subrange(0, k as int)),
    {
        let b = s[k];
        let l = if 65 <= b && b <= 90 { b + 32 } else { b };
        r.push(l);
        assert(lower_bytes(s@.subrange(0, k + 1)) =~= lower_bytes(s@.subrange(0, k as int)).push(l));
    }
    assert(s@.subrange(0, s@.len() as int) =~= s@);
    r
}

fn bytes_eq(a: &Vec<u8>, b: &Vec<u8>) -> (r: bool)
    ensures
        r == (a@ == b@),
{
    if a.len() != b.len() {
        return false;
    }
    for k in 0..a.len()
        invariant
            a@.len() == b@.len(),
            forall|j: int| 0 <= j < k ==> a@[j] == b@[j],
    {
        if a[k] != b[k] {
            return false;
        }
    }
    assert(a@ =~= b@);
    true
}

fn copy_bytes(a: &Vec<u8>) -> (r: Vec<u8>)
    ensures
        r@ == a@,
{
    let mut r: Vec<u8> = Vec::new();
    for k in 0..a.len()
        invariant
            r@ == a@.subrange(0, k as int),
    {
        r.push(a[k]);
    }
    assert(a@.subrange(0, a@.len() as int) =~= a@);
    r
}

/// Whether a file of this name is a header, whose directives the pass reads.
pub fn is_header_name(name: &Vec<u8>) -> (r: bool)
    ensures
        r == is_header(name@),
{
    let n = name.len();
    let r = n > 2 && name[n - 2] == 46 && name[n - 1] == 104;
    proof {
        if n > 2 {
            let tail = name@.subrange(n - 1, n as int);
            if r {
                assert(tail =~= seq![104u8]);
            } else if tail == seq![104u8] {
                assert(tail[0] == 104u8);
            }
        }
    }
    r
}

fn is_import_library_name(name: &Vec<u8>) -> (r: bool)
    ensures
        r == is_import_library(name@),
{
    let n = name.len();
    let r = n > 4 && name[n - 4] == 46 && (name[n - 3] == 108 || name[n - 3] == 76) && name[n - 2] == 105
        && name[n - 1] == 98;
    proof {
        if n > 4 {
            let tail = name@.subrange(n - 3, n as int);
            if r {
                if name[n - 3] == 108 {
                    assert(tail =~= seq![108u8, 105u8, 98u8]);
                } else {
                    assert(tail =~= seq![76u8, 105u8, 98u8]);
                }
            } else if tail == seq![108u8, 105u8, 98u8] || tail == seq![76u8, 105u8, 98u8] {
                assert(tail[0] == name@[n - 3] && tail[1] == name@[n - 2] && tail[2] == name@[n - 1]);
            }
        }
    }
    r
}

proof fn lemma_last_component_after(r: Seq<u8>, k: int)
    requires
        0 <= k <= r.len(),
        k == 0 || is_separator(r[k - 1]),
        forall|j: int| k <= j < r.len() ==> !is_separator(#[trigger] r[j]),
    ensures
        last_component(r) == r.subrange(k, r.len() as int),
    decreases r.len(),
{
    if r.len() == k {
        if k > 0 {
            assert(is_separator(r.last()));
        }
        assert(r.subrange(k, r.len() as int) =~= seq![]);
    } else {
        let q = r.drop_last();
        assert forall|j: int| k <= j < q.len() implies !is_separator(#[trigger] q[j]) by {
            assert(q[j] == r[j]);
        }
        lemma_last_component_after(q, k);
        assert(!is_separator(r[r.len() - 1]));
        assert(r.subrange(k, r.len() as int) =~= q.subrange(k, q.len() as int).push(r.last()));
    }
}

fn last_component_exec(r: &Vec<u8>) -> (c: Vec<u8>)
    ensures
        c@ == last_component(r@),
{
    let mut k = r.len();
    while k > 0 && !(r[k - 1] == 47 || r[k - 1] == 92)
        invariant
            k <= r@.len(),
            forall|j: int| k <= j < r@.len() ==> !is_separator(#[trigger] r@[j]),
        decreases k,
    {
        k -= 1;
    }
    proof {
        lemma_last_component_after(r@, k as int);
    }
    let mut c: Vec<u8> = Vec::new();
    for j in k..r.len()
        invariant
            k <= r@.len(),
            c@ == r@.subrange(k as int, j as int),
    {
        c.push(r[j]);
    }
    c
}


pub open spec fn tree_view(files: Seq<TreeFile>) -> Seq<FileView> {
    files.map_values(|f: TreeFile| f@)
}

pub open spec fn fixes_view(fixes: Seq<CaseFix>) -> Seq<FixView> {
    fixes.map_values(|f: CaseFix| f@)
}

pub open spec fn names_view(v: Seq<Vec<u8>>) -> Seq<Seq<u8>> {
    v.map_values(|b: Vec<u8>| b@)
}

/// The tree as the planner holds it: entry `j` is a file in the directory
/// of listed file `src[j]`, with its references, under the name `name[j]`.
spec fn current(fv: Seq<FileView>, src: Seq<usize>, name: Seq<Vec<u8>>) -> Seq<FileView> {
    Seq::new(
        src.len(),
        |j: int| FileView { dir: fv[src[j] as int].dir, name: name[j]@, refs: fv[src[j] as int].refs },
    )
}

fn occupied_exec(files: &Vec<TreeFile>, src: &Vec<usize>, name: &Vec<Vec<u8>>, dir: &Vec<u8>, target: &Vec<u8>) -> (r: bool)
    requires
        src@.len() == name@.len(),
        forall|e: int| 0 <= e < src@.len() ==> src@[e] < files@.len(),
    ensures
        r == occupied(current(tree_view(files@), src@, name@), dir@, target@),
{
    let ghost cur = current(tree_view(files@), src@, name@);
    for j in 0..src.len()
        invariant
            src@.len() == name@.len(),
            forall|e: int| 0 <= e < src@.len() ==> src@[e] < files@.len(),
            cur == current(tree_view(files@), src@, name@),
            forall|t: int| 0 <= t < j ==> !(cur[t].dir == dir@ && cur[t].name == target@),
    {
        let s = src[j];
        if bytes_eq(&files[s].dir, dir) && bytes_eq(&name[j], target) {
            assert(cur[j as int].dir == dir@ && cur[j as int].name == target@);
            return true;
        }
    }
    proof {
        if occupied(cur, dir@, target@) {
            let j = choose|j: int| 0 <= j < cur.len() && (#[trigger] cur[j]).dir == dir@ && cur[j].name == target@;
        }
    }
    false
}

/// The operations that repair letter case in the listed tree, in the order
/// they are to be performed: those of the first phase, then the copies of
/// the second.
pub fn plan_case_fixes(files: &Vec<TreeFile>, mode: CaseMode) -> (r: Vec<CaseFix>)
    ensures
        fixes_view(r@) == case_pass(tree_view(files@), mode).1,
{
    let ghost fv = tree_view(files@);
    let n = files.len();
    let mut src: Vec<usize> = Vec::new();
    let mut name: Vec<Vec<u8>> = Vec::new();
    for j in 0..n
        invariant
            n == files@.len(),
            src@.len() == j,
            name@.len() == j,
            forall|t: int| 0 <= t < j ==> #[trigger] src@[t] == t,
            forall|t: int| 0 <= t < j ==> #[trigger] name@[t]@ == files@[t].name@,
    {
        src.push(j);
        name.push(copy_bytes(&files[j].name));
    }
    let mut fixes: Vec<CaseFix> = Vec::new();
    assert forall|t: int| 0 <= t < n implies current(fv, src@, name@)[t] == fv[t] by {
        assert(src@[t] == t);
        assert(name@[t]@ == files@[t].name@);
    }
    assert(current(fv, src@, name@) =~= lowering_pass(fv, mode, 0).0);
    assert(fixes_view(fixes@) =~= lowering_pass(fv, mode, 0).1);
    for i in 0..n
        invariant
            n == files@.len(),
            fv == tree_view(files@),
            src@.len() == name@.len(),
            src@.len() >= n,
            forall|e: int| 0 <= e < src@.len() ==> src@[e] < n,
            forall|t: int| i <= t < n ==> #[trigger] src@[t] == t,
            current(fv, src@, name@) == lowering_pass(fv, mode, i as nat).0,
            fixes_view(fixes@) == lowering_pass(fv, mode, i as nat).1,
    {
        let ghost cur = current(fv, src@, name@);
        let ghost fixes0 = fixes_view(fixes@);
        let lower = lowercase_bytes(&name[i]);
        let needs = (is_header_name(&name[i]) || is_import_library_name(&name[i])) && !bytes_eq(&lower, &name[i]);
        assert(src@[i as int] == i);
        assert(cur[i as int].name == name@[i as int]@);
        assert(cur[i as int].dir == files@[i as int].dir@);
        if needs && !occupied_exec(files, &src, &name, &files[i].dir, &lower) {
            let ghost f = cur[i as int];
            let kind = match mode {
                CaseMode::Rename => FixKind::Rename,
                CaseMode::KeepBoth => FixKind::Copy,
            };
            let fix = CaseFix { kind, dir: copy_bytes(&files[i].dir), from: copy_bytes(&name[i]), to: copy_bytes(&lower) };
            fixes.push(fix);
            proof {
                assert(fixes_view(fixes@) =~= fixes0.push(
                    FixView { kind, dir: f.dir, from: f.name, to: lower_bytes(f.name) },
                ));
            }
            match mode {
                CaseMode::Rename => {
                    name.set(i, lower);
                    proof {
                        assert(current(fv, src@, name@) =~= cur.update(
                            i as int,
                            FileView { dir: f.dir, name: lower_bytes(f.name), refs: f.refs },
                        ));
                    }
                },
                CaseMode::KeepBoth => {
                    src.push(i);
                    name.push(lower);
                    proof {
                        assert(current(fv, src@, name@) =~= cur.push(
                            FileView { dir: f.dir, name: lower_bytes(f.name), refs: f.refs },
                        ));
                    }
                },
            }
        }
    }
    let ghost t1 = current(fv, src@, name@);
    let ghost renames = fixes_view(fixes@);
    let m = src.len();
    let mut refs: Vec<Vec<u8>> = Vec::new();
    for i in 0..m
        invariant
            n == files@.len(),
            fv == tree_view(files@),
            m == src@.len(),
            src@.len() == name@.len(),
            forall|e: int| 0 <= e < src@.len() ==> src@[e] < n,
            t1 == current(fv, src@, name@),
            names_view(refs@) == referenced_upto(t1, i as nat),
    {
        let is_h = is_header_name(&name[i]);
        let ghost before = names_view(refs@);
        assert(t1[i as int].name == name@[i as int]@);
        if is_h {
            let rs = &files[src[i]].refs;
            let ghost parts = t1[i as int].refs.map_values(|r: Seq<u8>| last_component(r));
            assert(t1[i as int].refs == names_view(rs@));
            for k in 0..rs.len()
                invariant
                    parts == names_view(rs@).map_values(|r: Seq<u8>| last_component(r)),
                    names_view(refs@) == before + parts.subrange(0, k as int),
            {
                let ghost refs0 = refs@;
                let c = last_component_exec(&rs[k]);
                refs.push(c);
                assert(parts[k as int] == last_component(rs@[k as int]@));
                assert(refs@ == refs0.push(c));
                assert(names_view(refs@) =~= names_view(refs0).push(c@));
                assert(names_view(refs@) =~= before + parts.subrange(0, k + 1));
            }
            assert(parts.subrange(0, parts.len() as int) =~= parts);
        } else {
            assert(names_view(refs@) =~= before + seq![]);
        }
    }
    let ghost rv = names_view(refs@);
    let mut lowered: Vec<Vec<u8>> = Vec::new();
    let mut headers: Vec<bool> = Vec::new();
    for j in 0..m
        invariant
            m == name@.len(),
            lowered@.len() == j,
            headers@.len() == j,
            forall|t: int| 0 <= t < j ==> #[trigger] lowered@[t]@ == lower_bytes(name@[t]@),
            forall|t: int| 0 <= t < j ==> #[trigger] headers@[t] == is_header(name@[t]@),
    {
        lowered.push(lowercase_bytes(&name[j]));
        headers.push(is_header_name(&name[j]));
    }
    assert forall|j: int| 0 <= j < m implies #[trigger] t1[j] == (FileView {
        dir: fv[src@[j] as int].dir,
        name: name@[j]@,
        refs: fv[src@[j] as int].refs,
    }) by {}
    assert(current(fv, src@, name@) =~= copying_pass(t1, rv, 0).0);
    assert(fixes_view(fixes@) =~= renames + copying_pass(t1, rv, 0).1);
    for k in 0..refs.len()
        invariant
            n == files@.len(),
            fv == tree_view(files@),
            t1.len() == m,
            src@.len() == name@.len(),
            src@.len() >= m,
            forall|e: int| 0 <= e < src@.len() ==> src@[e] < n,
            forall|j: int| 0 <= j < m ==> #[trigger] t1[j] == (FileView {
                dir: fv[src@[j] as int].dir,
                name: name@[j]@,
                refs: fv[src@[j] as int].refs,
            }),
            rv == names_view(refs@),
            lowered@.len() == m,
            headers@.len() == m,
            forall|t: int| 0 <= t < m ==> #[trigger] lowered@[t]@ == lower_bytes(name@[t]@),
            forall|t: int| 0 <= t < m ==> #[trigger] headers@[t] == is_header(name@[t]@),
            current(fv, src@, name@) == copying_pass(t1, rv, k as nat).0,
            fixes_view(fixes@) == renames + copying_pass(t1, rv, k as nat).1,
    {
        let want = lowercase_bytes(&refs[k]);
        let ghost start = copying_pass(t1, rv, k as nat);
        assert(rv[k as int] == refs@[k as int]@);
        for h in 0..m
            invariant
                n == files@.len(),
                fv == tree_view(files@),
                t1.len() == m,
                src@.len() == name@.len(),
                src@.len() >= m,
                forall|e: int| 0 <= e < src@.len() ==> src@[e] < n,
                forall|j: int| 0 <= j < m ==> #[trigger] t1[j] == (FileView {
                    dir: fv[src@[j] as int].dir,
                    name: name@[j]@,
                    refs: fv[src@[j] as int].refs,
                }),
                rv == names_view(refs@),
                0 <= k < rv.len(),
                rv[k as int] == refs@[k as int]@,
                want@ == lower_bytes(refs@[k as int]@),
                lowered@.len() == m,
                headers@.len() == m,
                forall|t: int| 0 <= t < m ==> #[trigger] lowered@[t]@ == lower_bytes(name@[t]@),
                forall|t: int| 0 <= t < m ==> #[trigger] headers@[t] == is_header(name@[t]@),
                current(fv, src@, name@) == copies_for(t1, rv[k as int], start, h as nat).0,
                fixes_view(fixes@) == renames + copies_for(t1, rv[k as int], start, h as nat).1,
        {
            let ghost cur = current(fv, src@, name@);
            let ghost fixes0 = fixes_view(fixes@);
            let s = src[h];
            assert(t1[h as int].dir == files@[s as int].dir@);
            if headers[h] && bytes_eq(&lowered[h], &want) && !occupied_exec(files, &src, &name, &files[s].dir, &refs[k]) {
                let fix = CaseFix {
                    kind: FixKind::Copy,
                    dir: copy_bytes(&files[s].dir),
                    from: copy_bytes(&name[h]),
                    to: copy_bytes(&refs[k]),
                };
                fixes.push(fix);
                src.push(s);
                name.push(copy_bytes(&refs[k]));
                proof {
                    let f = t1[h as int];
                    let r = rv[k as int];
                    assert(current(fv, src@, name@) =~= cur.push(FileView { dir: f.dir, name: r, refs: f.refs }));
                    assert(fixes_view(fixes@) =~= fixes0.push(
                        FixView { kind: FixKind::Copy, dir: f.dir, from: f.name, to: r },
                    ));
                }
            }
        }
    }
    fixes
}

/// File `j` needs no rename, or the lower-case name it would take is taken.
pub open spec fn settled(files: Seq<FileView>, j: int) -> bool {
    !needs_lowering(files[j].name) || occupied(files, files[j].dir, lower_bytes(files[j].name))
}

proof fn lemma_lower_idempotent(x: Seq<u8>)
    ensures
        lower_bytes(lower_bytes(x)) == lower_bytes(x),
{
    assert(lower_bytes(lower_bytes(x)) =~= lower_bytes(x));
}

proof fn lemma_lower_keeps_header(x: Seq<u8>)
    requires
        is_header(x),
    ensures
        is_header(lower_bytes(x)),
{
    let y = lower_bytes(x);
    assert(y[y.len() - 2] == lower_byte(x[x.len() - 2]));
    assert(y.subrange(y.len() - 1, y.len() as int) =~= seq![lower_byte(x[x.len() - 1])]);
    assert(x.subrange(x.len() - 1, x.len() as int)[0] == x[x.len() - 1]);
}

proof fn lemma_occupied_grows(s: Seq<FileView>, t: Seq<FileView>, dir: Seq<u8>, name: Seq<u8>)
    requires
        occupied(s, dir, name),
        s.len() <= t.len(),
        forall|j: int| 0 <= j < s.len() ==> #[trigger] t[j] == s[j],
    ensures
        occupied(t, dir, name),
{
    let j = choose|j: int| 0 <= j < s.len() && (#[trigger] s[j]).dir == dir && s[j].name == name;
    assert(t[j] == s[j]);
}

/// What the first phase keeps, what it adds and what it settles.
proof fn lemma_lowering_facts(files: Seq<FileView>, mode: CaseMode, i: nat)
    requires
        i <= files.len(),
    ensures
        lowering_pass(files, mode, i).0.len() >= files.len(),
        mode == CaseMode::Rename ==> lowering_pass(files, mode, i).0.len() == files.len(),
        forall|j: int| i <= j < files.len() ==> #[trigger] lowering_pass(files, mode, i).0[j] == files[j],
        forall|j: int| 0 <= j < files.len() ==> {
            let f = #[trigger] lowering_pass(files, mode, i).0[j];
            &&& f.dir == files[j].dir
            &&& f.refs == files[j].refs
            &&& (f.name == files[j].name || f.name == lower_bytes(files[j].name))
        },
        forall|j: int|
            files.len() <= j < lowering_pass(files, mode, i).0.len() ==> lower_bytes(
                (#[trigger] lowering_pass(files, mode, i).0[j]).name,
            ) == lowering_pass(files, mode, i).0[j].name,
        forall|j: int| 0 <= j < i ==> #[trigger] settled(lowering_pass(files, mode, i).0, j),
        forall|j: int|
            files.len() <= j < lowering_pass(files, mode, i).0.len() ==> #[trigger] settled(
                lowering_pass(files, mode, i).0,
                j,
            ),
    decreases i,
{
    if i > 0 {
        let k = (i - 1) as nat;
        lemma_lowering_facts(files, mode, k);
        let cur = lowering_pass(files, mode, k).0;
        let next = lowering_pass(files, mode, i).0;
        let f = cur[k as int];
        let lower = lower_bytes(f.name);
        lemma_lower_idempotent(f.name);
        assert(f == files[k as int]);
        if needs_lowering(f.name) && !occupied(cur, f.dir, lower) {
            let g = FileView { dir: f.dir, name: lower, refs: f.refs };
            if mode == CaseMode::Rename {
                assert(next == cur.update(k as int, g));
                assert forall|j: int| 0 <= j < i implies #[trigger] settled(next, j) by {
                    if j == k {
                        assert(lower_bytes(next[j].name) == next[j].name);
                    } else {
                        assert(settled(cur, j));
                        if needs_lowering(cur[j].name) {
                            let w = choose|w: int|
                                0 <= w < cur.len() && (#[trigger] cur[w]).dir == cur[j].dir && cur[w].name == lower_bytes(
                                    cur[j].name,
                                );
                            if w == k {
                                lemma_lower_idempotent(cur[j].name);
                                assert(lower_bytes(cur[w].name) == cur[w].name);
                            }
                            assert(next[w] == cur[w]);
                        }
                    }
                }
            } else {
                assert(next == cur.push(g));
                assert forall|j: int| (0 <= j < i || files.len() <= j < next.len()) implies #[trigger] settled(next, j) by {
                    if j == k {
                        assert(next[cur.len() as int] == g);
                        assert(occupied(next, next[j].dir, lower_bytes(next[j].name)));
                    } else if j == cur.len() {
                        assert(lower_bytes(next[j].name) == next[j].name);
                    } else {
                        assert(settled(cur, j));
                        assert(next[j] == cur[j]);
                        if needs_lowering(cur[j].name) {
                            lemma_occupied_grows(cur, next, cur[j].dir, lower_bytes(cur[j].name));
                        }
                    }
                }
                assert forall|j: int| files.len() <= j < next.len() implies lower_bytes((#[trigger] next[j]).name)
                    == next[j].name by {
                    if j == cur.len() {
                        assert(next[j] == g);
                    } else {
                        assert(next[j] == cur[j]);
                    }
                }
            }
        } else {
            assert(next == cur);
            assert forall|j: int| 0 <= j < i implies #[trigger] settled(next, j) by {
                if j != k {
                    assert(settled(cur, j));
                }
            }
        }
    }
}

/// `f` is a copy of a header of `index` made under a name it answers.
pub open spec fn copied_from(index: Seq<FileView>, f: FileView) -> bool {
    exists|h: int|
        0 <= h < index.len() && answers(#[trigger] index[h], f.name) && f.dir == index[h].dir && f.refs == index[h].refs
}

/// `cur` is `index` followed by copies of its headers.
pub open spec fn extends_with_copies(index: Seq<FileView>, cur: Seq<FileView>) -> bool {
    &&& cur.len() >= index.len()
    &&& forall|j: int| 0 <= j < index.len() ==> #[trigger] cur[j] == index[j]
    &&& forall|e: int| index.len() <= e < cur.len() ==> copied_from(index, #[trigger] cur[e])
}

proof fn lemma_copies_for(index: Seq<FileView>, r: Seq<u8>, state: (Seq<FileView>, Seq<FixView>), h: nat)
    requires
        extends_with_copies(index, state.0),
        h <= index.len(),
    ensures
        extends_with_copies(index, copies_for(index, r, state, h).0),
        copies_for(index, r, state, h).0.len() >= state.0.len(),
        forall|j: int| 0 <= j < state.0.len() ==> #[trigger] copies_for(index, r, state, h).0[j] == state.0[j],
        forall|g: int|
            0 <= g < h && #[trigger] answers(index[g], r) ==> occupied(copies_for(index, r, state, h).0, index[g].dir, r),
    decreases h,
{
    if h > 0 {
        let k = (h - 1) as nat;
        lemma_copies_for(index, r, state, k);
        let cur = copies_for(index, r, state, k).0;
        let next = copies_for(index, r, state, h).0;
        let f = index[k as int];
        if answers(f, r) && !occupied(cur, f.dir, r) {
            let g = FileView { dir: f.dir, name: r, refs: f.refs };
            assert(next == cur.push(g));
            assert(copied_from(index, g)) by {
                assert(answers(index[k as int], g.name));
            }
            assert forall|e: int| index.len() <= e < next.len() implies copied_from(index, #[trigger] next[e]) by {
                if e < cur.len() {
                    assert(next[e] == cur[e]);
                }
            }
            assert forall|q: int| 0 <= q < h && #[trigger] answers(index[q], r) implies occupied(next, index[q].dir, r) by {
                if q == k {
                    assert(next[cur.len() as int] == g);
                } else {
                    lemma_occupied_grows(cur, next, index[q].dir, r);
                }
            }
        } else {
            assert forall|q: int| 0 <= q < h && #[trigger] answers(index[q], r) implies occupied(next, index[q].dir, r) by {
            }
        }
    }
}

proof fn lemma_copying_pass(index: Seq<FileView>, refs: Seq<Seq<u8>>, k: nat)
    requires
        k <= refs.len(),
    ensures
        extends_with_copies(index, copying_pass(index, refs, k).0),
        forall|q: int, g: int|
            0 <= q < k && 0 <= g < index.len() && #[trigger] answers(index[g], refs[q]) ==> occupied(
                copying_pass(index, refs, k).0,
                index[g].dir,
                refs[q],
            ),
    decreases k,
{
    if k > 0 {
        let p = (k - 1) as nat;
        lemma_copying_pass(index, refs, p);
        let state = copying_pass(index, refs, p);
        lemma_copies_for(index, refs[p as int], state, index.len());
        let next = copying_pass(index, refs, k).0;
        assert forall|q: int, g: int|
            0 <= q < k && 0 <= g < index.len() && #[trigger] answers(index[g], refs[q]) implies occupied(next, index[g].dir, refs[q]) by {
            if q < p {
                lemma_occupied_grows(state.0, next, index[g].dir, refs[q]);
            }
        }
    }
}

proof fn lemma_lowering_noop(files: Seq<FileView>, mode: CaseMode, i: nat)
    requires
        i <= files.len(),
        forall|j: int| 0 <= j < files.len() ==> #[trigger] settled(files, j),
    ensures
        lowering_pass(files, mode, i) == (files, Seq::<FixView>::empty()),
    decreases i,
{
    if i > 0 {
        lemma_lowering_noop(files, mode, (i - 1) as nat);
        assert(settled(files, i - 1));
    }
}

proof fn lemma_copies_for_noop(index: Seq<FileView>, r: Seq<u8>, state: (Seq<FileView>, Seq<FixView>), h: nat)
    requires
        h <= index.len(),
        forall|g: int| 0 <= g < h && #[trigger] answers(index[g], r) ==> occupied(state.0, index[g].dir, r),
    ensures
        copies_for(index, r, state, h) == state,
    decreases h,
{
    if h > 0 {
        lemma_copies_for_noop(index, r, state, (h - 1) as nat);
        assert(answers(index[h - 1], r) ==> occupied(state.0, index[h - 1].dir, r));
    }
}

proof fn lemma_copying_noop(index: Seq<FileView>, refs: Seq<Seq<u8>>, k: nat)
    requires
        k <= refs.len(),
        forall|q: int, g: int|
            0 <= q < refs.len() && 0 <= g < index.len() && #[trigger] answers(index[g], refs[q]) ==> occupied(index, index[g].dir, refs[q]),
    ensures
        copying_pass(index, refs, k) == (index, Seq::<FixView>::empty()),
    decreases k,
{
    if k > 0 {
        let p = (k - 1) as nat;
        lemma_copying_noop(index, refs, p);
        let r = refs[p as int];
        assert forall|g: int| 0 <= g < index.len() && #[trigger] answers(index[g], r) implies occupied(index, index[g].dir, r) by {
            assert(answers(index[g], refs[p as int]));
        }
        lemma_copies_for_noop(index, r, (index, Seq::<FixView>::empty()), index.len());
    }
}

/// Every referenced name listed comes from a header's references.
proof fn lemma_ref_source(files: Seq<FileView>, i: nat, x: Seq<u8>)
    requires
        i <= files.len(),
        referenced_upto(files, i).contains(x),
    ensures
        exists|j: int, m: int|
            0 <= j < i && is_header(files[j].name) && 0 <= m < files[j].refs.len() && x == last_component(
                #[trigger] files[j].refs[m],
            ),
    decreases i,
{
    if i > 0 {
        let p = (i - 1) as nat;
        let before = referenced_upto(files, p);
        let f = files[p as int];
        let q = choose|q: int| 0 <= q < referenced_upto(files, i).len() && referenced_upto(files, i)[q] == x;
        if q < before.len() {
            assert(before[q] == x);
            lemma_ref_source(files, p, x);
        } else {
            let m = q - before.len();
            assert(is_header(f.name));
            assert(x == last_component(files[p as int].refs[m]));
        }
    }
}

/// Every reference of a header is listed.
proof fn lemma_ref_listed(files: Seq<FileView>, i: nat, j: int, m: int)
    requires
        0 <= j < i <= files.len(),
        is_header(files[j].name),
        0 <= m < files[j].refs.len(),
    ensures
        referenced_upto(files, i).contains(last_component(files[j].refs[m])),
    decreases i,
{
    let p = (i - 1) as nat;
    let before = referenced_upto(files, p);
    let all = referenced_upto(files, i);
    if j < p {
        lemma_ref_listed(files, p, j, m);
        let q = choose|q: int| 0 <= q < before.len() && before[q] == last_component(files[j].refs[m]);
        assert(all[q] == before[q]);
    } else {
        assert(all[before.len() + m] == last_component(files[j].refs[m]));
    }
}


/// A renamed header is still a header and still answers the same names.
proof fn lemma_renamed_header(files: Seq<FileView>, renamed: Seq<FileView>, a: int)
    requires
        0 <= a < files.len(),
        a < renamed.len(),
        renamed[a].name == files[a].name || renamed[a].name == lower_bytes(files[a].name),
        is_header(files[a].name),
    ensures
        is_header(renamed[a].name),
        lower_bytes(renamed[a].name) == lower_bytes(files[a].name),
{
    lemma_lower_idempotent(files[a].name);
    lemma_lower_keeps_header(files[a].name);
}

/// Running the pass again on the tree that it left asks for no operation
/// and leaves that tree as it is: no file is renamed or created the second
/// time.
pub proof fn lemma_case_pass_converges(files: Seq<FileView>, mode: CaseMode)
    ensures
        case_pass(case_pass(files, mode).0, mode) == (case_pass(files, mode).0, Seq::<FixView>::empty()),
{
    lemma_lowering_facts(files, mode, files.len());
    let t1 = lowering_pass(files, mode, files.len()).0;
    let n = t1.len();
    assert forall|j: int| 0 <= j < n implies #[trigger] settled(t1, j) by {
        if j < files.len() {
            assert(settled(t1, j));
        } else {
            assert(settled(t1, j));
        }
    }
    let refs = referenced_upto(t1, t1.len());
    lemma_copying_pass(t1, refs, refs.len());
    let t2 = copying_pass(t1, refs, refs.len()).0;
    assert(t2 == case_pass(files, mode).0);
    assert forall|j: int| 0 <= j < t2.len() implies #[trigger] settled(t2, j) by {
        if j < n {
            assert(t2[j] == t1[j]);
            assert(settled(t1, j));
            if needs_lowering(t1[j].name) {
                lemma_occupied_grows(t1, t2, t1[j].dir, lower_bytes(t1[j].name));
            }
        } else {
            assert(copied_from(t1, t2[j]));
            let h = choose|h: int|
                0 <= h < t1.len() && answers(#[trigger] t1[h], t2[j].name) && t2[j].dir == t1[h].dir && t2[j].refs == t1[h].refs;
            if needs_lowering(t2[j].name) {
                assert(settled(t1, h));
                if needs_lowering(t1[h].name) {
                    lemma_occupied_grows(t1, t2, t1[h].dir, lower_bytes(t1[h].name));
                } else {
                    assert(t2[h] == t1[h]);
                    assert(occupied(t2, t1[h].dir, lower_bytes(t1[h].name)));
                }
            }
        }
    }
    lemma_lowering_noop(t2, mode, t2.len());
    let refs2 = referenced_upto(t2, t2.len());
    assert forall|q: int, g: int|
        0 <= q < refs2.len() && 0 <= g < t2.len() && #[trigger] answers(t2[g], refs2[q]) implies occupied(t2, t2[g].dir, refs2[q]) by {
        let x = refs2[q];
        assert(refs2.contains(x));
        lemma_ref_source(t2, t2.len(), x);
        let (j, m) = choose|j: int, m: int|
            0 <= j < t2.len() && is_header(t2[j].name) && 0 <= m < t2[j].refs.len() && x == last_component(
                #[trigger] t2[j].refs[m],
            );
        if j < n {
            assert(t2[j] == t1[j]);
            lemma_ref_listed(t1, t1.len(), j, m);
        } else {
            assert(copied_from(t1, t2[j]));
            let h = choose|h: int|
                0 <= h < t1.len() && answers(#[trigger] t1[h], t2[j].name) && t2[j].dir == t1[h].dir && t2[j].refs == t1[h].refs;
            lemma_ref_listed(t1, t1.len(), h, m);
        }
        let q1 = choose|q1: int| 0 <= q1 < refs.len() && refs[q1] == x;
        if g < n {
            assert(t2[g] == t1[g]);
            assert(answers(t1[g], refs[q1]));
        } else {
            assert(copied_from(t1, t2[g]));
            let h2 = choose|h2: int|
                0 <= h2 < t1.len() && answers(#[trigger] t1[h2], t2[g].name) && t2[g].dir == t1[h2].dir && t2[g].refs == t1[h2].refs;
            assert(answers(t1[h2], refs[q1]));
        }
    }
    lemma_copying_noop(t2, refs2, refs2.len());
    assert(Seq::<FixView>::empty() + Seq::<FixView>::empty() =~= Seq::<FixView>::empty());
}

/// After the pass, a name that a header's directive references (its last
/// path component) stands, under exactly that name, in the directory of
/// every header whose name equals it ignoring ASCII case: either that
/// header was renamed to it, or a copy of it was made under it, or a file
/// of that name was there already.
pub proof fn lemma_case_pass_answers(files: Seq<FileView>, mode: CaseMode, a: int, g: int, m: int)
    requires
        0 <= a < files.len(),
        0 <= g < files.len(),
        is_header(files[a].name),
        is_header(files[g].name),
        0 <= m < files[g].refs.len(),
        lower_bytes(files[a].name) == lower_bytes(last_component(files[g].refs[m])),
    ensures
        occupied(case_pass(files, mode).0, files[a].dir, last_component(files[g].refs[m])),
{
    lemma_lowering_facts(files, mode, files.len());
    let t1 = lowering_pass(files, mode, files.len()).0;
    let refs = referenced_upto(t1, t1.len());
    lemma_copying_pass(t1, refs, refs.len());
    lemma_renamed_header(files, t1, a);
    lemma_renamed_header(files, t1, g);
    let x = last_component(files[g].refs[m]);
    assert(t1[g].refs == files[g].refs);
    lemma_ref_listed(t1, t1.len(), g, m);
    let q = choose|q: int| 0 <= q < refs.len() && refs[q] == x;
    assert(answers(t1[a], refs[q]));
}

} // verus!
