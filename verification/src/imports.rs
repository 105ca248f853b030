//! Import scanning: a model of the statement containers of a parsed source
//! file, the traversal that collects import records from it, and the
//! effective import set that parameterises the loader.

use vstd::prelude::*;

verus! {

/// One alias of an import statement: `name` or `name as asname`.
#[derive(Debug)]
pub struct ImportAlias {
    pub name: String,
    pub asname: Option<String>,
}

/// One import statement's worth of information.
///
/// For `import X` this is one record per imported name; for
/// `from X import a, b` it is a single record for `X` carrying the imported
/// names.  Only `module` and `is_relative` decide what the loader
/// pre-imports; `names` is kept for diagnostics.
#[derive(Debug)]
pub struct ImportRecord {
    /// The module named by the statement (`X` in both forms).
    pub module: String,
    /// The names bound by the statement (aliases win over plain names).
    pub names: Vec<String>,
    /// True when the statement is a relative import (`from . import a`).
    pub is_relative: bool,
}

/// The mathematical value of an `ImportRecord`.
#[verifier::ext_equal]
pub struct ImportRecordV {
    pub module: Seq<char>,
    pub names: Seq<Seq<char>>,
    pub is_relative: bool,
}

impl View for ImportRecord {
    type V = ImportRecordV;

    open spec fn view(&self) -> ImportRecordV {
        ImportRecordV {
            module: self.module@,
            names: self.names@.map_values(|n: String| n@),
            is_relative: self.is_relative,
        }
    }
}

/// A statement of a scanned source file, reduced to what import collection
/// reads: the import statements themselves and every statement container
/// that is descended into (both arms of a conditional, both arms of a
/// `while`, `for` or `async for` loop, function, coroutine and class
/// bodies).
pub enum PyStmt {
    /// `import a, b as c`.
    Import(Vec<ImportAlias>),
    /// `from m import a, b as c`, with the statement's relative level
    /// (the number of leading dots; `0` for an absolute import).
    ImportFrom { module: Option<String>, names: Vec<ImportAlias>, level: u32 },
    /// A statement with two descended bodies: `if`/`else`, or a `while`,
    /// `for` or `async for` loop with its `else` clause.
    Branch { body: Vec<PyStmt>, orelse: Vec<PyStmt> },
    /// A statement with one descended body: `def`, `async def`, `class`.
    Scope { body: Vec<PyStmt> },
    /// Any other statement; nothing is collected from it.
    Other,
}

/// The name an alias binds: the alias if present, else the plain name.
pub open spec fn bound_name(a: ImportAlias) -> Seq<char> {
    match a.asname {
        Some(n) => n@,
        None => a.name@,
    }
}

/// The records of one `import` statement: one per alias.
pub open spec fn records_of_plain_import(aliases: Seq<ImportAlias>) -> Seq<ImportRecordV> {
    aliases.map_values(
        |a: ImportAlias|
            ImportRecordV { module: a.name@, names: seq![bound_name(a)], is_relative: false },
    )
}

/// The single record of a `from m import ...` statement.
pub open spec fn record_of_from_import(
    module: Seq<char>,
    names: Seq<ImportAlias>,
    level: u32,
) -> ImportRecordV {
    ImportRecordV {
        module: module,
        names: names.map_values(|a: ImportAlias| bound_name(a)),
        is_relative: level > 0,
    }
}

/// The records collected from one statement, in source order.
pub open spec fn imports_of_stmt(s: PyStmt) -> Seq<ImportRecordV>
    decreases s,
{
    match s {
        PyStmt::Import(aliases) => records_of_plain_import(aliases@),
        PyStmt::ImportFrom { module, names, level } => match module {
            Some(m) => seq![record_of_from_import(m@, names@, level)],
            None => Seq::empty(),
        },
        PyStmt::Branch { body, orelse } => imports_of_stmts(body@) + imports_of_stmts(orelse@),
        PyStmt::Scope { body } => imports_of_stmts(body@),
        PyStmt::Other => Seq::empty(),
    }
}

/// The records collected from a statement sequence, in source order.
pub open spec fn imports_of_stmts(ss: Seq<PyStmt>) -> Seq<ImportRecordV>
    decreases ss,
{
    if ss.len() == 0 {
        Seq::empty()
    } else {
        imports_of_stmt(ss.first()) + imports_of_stmts(ss.drop_first())
    }
}

/// The mathematical values of a record vector.
pub open spec fn records_view(rs: Seq<ImportRecord>) -> Seq<ImportRecordV> {
    rs.map_values(|r: ImportRecord| r@)
}

impl ImportAlias {
    /// The name this alias binds, as an owned string.
    fn bound(&self) -> (r: String)
        ensures
            r@ == bound_name(*self),
    {
        match &self.asname {
            Some(n) => n.clone(),
            None => self.name.clone(),
        }
    }
}

/// Appends the records of one statement to `out`.
fn collect_stmt(s: &PyStmt, out: &mut Vec<ImportRecord>)
    ensures
        records_view(final(out)@) == records_view(old(out)@) + imports_of_stmt(*s),
    decreases *s,
{
    match s {
        PyStmt::Import(aliases) => {
            for i in 0..aliases.len()
                invariant
                    records_view(out@) == records_view(old(out)@) + records_of_plain_import(
                        aliases@.take(i as int),
                    ),
            {
                let rec = ImportRecord {
                    module: aliases[i].name.clone(),
                    names: vec![aliases[i].bound()],
                    is_relative: false,
                };
                assert(rec@ =~~= records_of_plain_import(aliases@)[i as int]);
                let ghost prev = out@;
                out.push(rec);
                assert(records_view(out@) =~~= records_view(old(out)@) + records_of_plain_import(
                    aliases@.take(i + 1),
                )) by {
                    assert(records_view(prev.push(rec)) =~~= records_view(prev).push(rec@));
                    assert(records_of_plain_import(aliases@.take(i + 1)) =~~= records_of_plain_import(
                        aliases@.take(i as int),
                    ).push(rec@));
                }
            }
            assert(aliases@.take(aliases@.len() as int) =~= aliases@);
        }
        PyStmt::ImportFrom { module, names, level } => {
            match module {
                Some(m) => {
                    let mut bound_names: Vec<String> = Vec::new();
                    for i in 0..names.len()
                        invariant
                            bound_names@.map_values(|n: String| n@) == names@.take(
                                i as int,
                            ).map_values(|a: ImportAlias| bound_name(a)),
                    {
                        let ghost prev = bound_names@;
                        let b = names[i].bound();
                        let ghost bv = b@;
                        bound_names.push(b);
                        assert(bound_names@.map_values(|n: String| n@) =~~= names@.take(
                            i + 1,
                        ).map_values(|a: ImportAlias| bound_name(a))) by {
                            assert(prev.push(bound_names@.last()).map_values(|n: String| n@)
                                =~~= prev.map_values(|n: String| n@).push(bv));
                        }
                    }
                    assert(names@.take(names@.len() as int) =~= names@);
                    let rec = ImportRecord {
                        module: m.clone(),
                        names: bound_names,
                        is_relative: *level > 0,
                    };
                    assert(rec@ =~~= record_of_from_import(m@, names@, *level));
                    out.push(rec);
                    assert(records_view(out@) =~~= records_view(old(out)@) + imports_of_stmt(*s));
                }
                None => {
                    assert(records_view(out@) =~~= records_view(old(out)@) + imports_of_stmt(*s));
                }
            }
        }
        PyStmt::Branch { body, orelse } => {
            collect_stmts_from(body, 0, out);
            collect_stmts_from(orelse, 0, out);
            assert(body@.skip(0) =~= body@);
            assert(orelse@.skip(0) =~= orelse@);
        }
        PyStmt::Scope { body } => {
            collect_stmts_from(body, 0, out);
            assert(body@.skip(0) =~= body@);
        }
        PyStmt::Other => {
            assert(records_view(out@) =~= records_view(old(out)@) + imports_of_stmt(*s));
        }
    }
}

/// Appends the records of `ss[i..]` to `out`.
fn collect_stmts_from(ss: &Vec<PyStmt>, i: usize, out: &mut Vec<ImportRecord>)
    requires
        i <= ss.len(),
    ensures
        records_view(final(out)@) == records_view(old(out)@) + imports_of_stmts(ss@.skip(i as int)),
    decreases ss@, ss@.len() - i,
{
    if i < ss.len() {
        collect_stmt(&ss[i], out);
        collect_stmts_from(ss, i + 1, out);
        assert(ss@.skip(i as int).first() == ss@[i as int]);
        assert(ss@.skip(i as int).drop_first() =~= ss@.skip(i + 1));
    } else {
        assert(ss@.skip(i as int) =~= Seq::<PyStmt>::empty());
    }
}

/// Collects every import record of a statement sequence, descending into all
/// statement containers, in source order.
pub fn collect_imports(stmts: &Vec<PyStmt>) -> (r: Vec<ImportRecord>)
    ensures
        records_view(r@) == imports_of_stmts(stmts@),
{
    let mut out: Vec<ImportRecord> = Vec::new();
    collect_stmts_from(stmts, 0, &mut out);
    assert(stmts@.skip(0) =~= stmts@);
    assert(records_view(Seq::<ImportRecord>::empty()) =~= Seq::<ImportRecordV>::empty());
    out
}

/// A module name a loader can act on: non-empty and free of path separators.
pub open spec fn wf_module(m: Seq<char>) -> bool {
    &&& m.len() > 0
    &&& forall|i: int| 0 <= i < m.len() ==> m[i] != '/' && m[i] != '\\'
}

/// The index of the first dot of a module name, or its length if it has none.
pub open spec fn first_dot(m: Seq<char>) -> int
    decreases m.len(),
{
    if m.len() == 0 {
        0
    } else if m[0] == '.' {
        0
    } else {
        1 + first_dot(m.drop_first())
    }
}

/// The first dotted segment of a module name.
pub open spec fn first_segment(m: Seq<char>) -> Seq<char> {
    m.take(first_dot(m))
}

/// `first_dot` is the least index holding a dot, and is in bounds.
pub proof fn lemma_first_dot(m: Seq<char>)
    ensures
        0 <= first_dot(m) <= m.len(),
        forall|j: int| 0 <= j < first_dot(m) ==> m[j] != '.',
        first_dot(m) < m.len() ==> m[first_dot(m)] == '.',
    decreases m.len(),
{
    if m.len() == 0 {
    } else if m[0] == '.' {
    } else {
        lemma_first_dot(m.drop_first());
        assert(forall|j: int| 1 <= j < m.len() ==> m[j] == m.drop_first()[j - 1]);
    }
}

/// A record whose module belongs in the effective import set for a project
/// whose package is `pkg`: an absolute import of a well-formed module whose
/// first dotted segment is not the package itself.
pub open spec fn loadable(r: ImportRecordV, pkg: Seq<char>) -> bool {
    &&& !r.is_relative
    &&& wf_module(r.module)
    &&& first_segment(r.module) != pkg
}

/// The effective import set of a record sequence: the modules of its
/// loadable records.
pub open spec fn effective_modules(rs: Seq<ImportRecordV>, pkg: Seq<char>) -> Set<Seq<char>>
    decreases rs.len(),
{
    if rs.len() == 0 {
        Set::empty()
    } else {
        let rest = effective_modules(rs.drop_last(), pkg);
        if loadable(rs.last(), pkg) {
            rest.insert(rs.last().module)
        } else {
            rest
        }
    }
}

/// Membership in the effective import set is membership of a loadable
/// record's module.
pub proof fn lemma_effective_membership(rs: Seq<ImportRecordV>, pkg: Seq<char>)
    ensures
        forall|m: Seq<char>|
            effective_modules(rs, pkg).contains(m) <==> exists|i: int|
                0 <= i < rs.len() && loadable(#[trigger] rs[i], pkg) && rs[i].module == m,
    decreases rs.len(),
{
    if rs.len() == 0 {
    } else {
        lemma_effective_membership(rs.drop_last(), pkg);
        assert(forall|i: int| 0 <= i < rs.len() - 1 ==> rs.drop_last()[i] == rs[i]);
        assert forall|m: Seq<char>| effective_modules(rs, pkg).contains(m) implies exists|i: int|
            0 <= i < rs.len() && loadable(#[trigger] rs[i], pkg) && rs[i].module == m by {
            if effective_modules(rs.drop_last(), pkg).contains(m) {
                let i = choose|i: int|
                    0 <= i < rs.drop_last().len() && loadable(
                        #[trigger] rs.drop_last()[i],
                        pkg,
                    ) && rs.drop_last()[i].module == m;
                assert(loadable(rs[i], pkg) && rs[i].module == m);
            } else {
                assert(loadable(rs[rs.len() - 1], pkg) && rs[rs.len() - 1].module == m);
            }
        }
        assert forall|m: Seq<char>|
            (exists|i: int| 0 <= i < rs.len() && loadable(#[trigger] rs[i], pkg) && rs[i].module == m)
            implies effective_modules(rs, pkg).contains(m) by {
            let i = choose|i: int|
                0 <= i < rs.len() && loadable(#[trigger] rs[i], pkg) && rs[i].module == m;
            if i < rs.len() - 1 {
                assert(loadable(rs.drop_last()[i], pkg) && rs.drop_last()[i].module == m);
                assert(effective_modules(rs.drop_last(), pkg).contains(m));
            }
        }
    }
}

/// Scanning order does not matter: record sequences with equal multisets
/// yield the same effective import set.  In particular, visiting the source
/// files of a tree in any order leaves `effective_modules` unchanged.
pub proof fn lemma_effective_order_irrelevant(
    rs1: Seq<ImportRecordV>,
    rs2: Seq<ImportRecordV>,
    pkg: Seq<char>,
)
    requires
        rs1.to_multiset() == rs2.to_multiset(),
    ensures
        effective_modules(rs1, pkg) == effective_modules(rs2, pkg),
{
    broadcast use vstd::seq_lib::group_to_multiset_ensures;

    lemma_effective_membership(rs1, pkg);
    lemma_effective_membership(rs2, pkg);
    assert forall|m: Seq<char>|
        effective_modules(rs1, pkg).contains(m) == effective_modules(rs2, pkg).contains(m) by {
        if effective_modules(rs1, pkg).contains(m) {
            let i = choose|i: int|
                0 <= i < rs1.len() && loadable(#[trigger] rs1[i], pkg) && rs1[i].module == m;
            assert(rs1.contains(rs1[i]));
            assert(rs1.to_multiset().count(rs1[i]) > 0);
            assert(rs2.to_multiset().count(rs1[i]) > 0);
            assert(rs2.contains(rs1[i]));
            let j = choose|j: int| 0 <= j < rs2.len() && rs2[j] == rs1[i];
            assert(loadable(rs2[j], pkg) && rs2[j].module == m);
        }
        if effective_modules(rs2, pkg).contains(m) {
            let i = choose|i: int|
                0 <= i < rs2.len() && loadable(#[trigger] rs2[i], pkg) && rs2[i].module == m;
            assert(rs2.contains(rs2[i]));
            assert(rs2.to_multiset().count(rs2[i]) > 0);
            assert(rs1.to_multiset().count(rs2[i]) > 0);
            assert(rs1.contains(rs2[i]));
            let j = choose|j: int| 0 <= j < rs1.len() && rs1[j] == rs2[i];
            assert(loadable(rs1[j], pkg) && rs1[j].module == m);
        }
    }
    assert(effective_modules(rs1, pkg) =~= effective_modules(rs2, pkg));
}

/// Visiting two files in either order yields the same effective import
/// set: concatenating their record sequences either way changes nothing.
pub proof fn lemma_effective_concat_commutes(
    a: Seq<ImportRecordV>,
    b: Seq<ImportRecordV>,
    pkg: Seq<char>,
)
    ensures
        effective_modules(a + b, pkg) == effective_modules(b + a, pkg),
{
    broadcast use vstd::multiset::group_multiset_axioms;

    vstd::seq_lib::lemma_seq_union_to_multiset_commutative(a, b);
    vstd::seq_lib::lemma_seq_union_to_multiset_commutative(b, a);
    assert((a + b).to_multiset() =~= (b + a).to_multiset());
    lemma_effective_order_irrelevant(a + b, b + a, pkg);
}

/// The effective import set holds no relative-import module and no module
/// whose first dotted segment is the package name.
pub proof fn lemma_effective_excludes(rs: Seq<ImportRecordV>, pkg: Seq<char>)
    ensures
        forall|m: Seq<char>| effective_modules(rs, pkg).contains(m) ==> first_segment(m) != pkg,
        forall|m: Seq<char>|
            effective_modules(rs, pkg).contains(m) ==> exists|i: int|
                0 <= i < rs.len() && !(#[trigger] rs[i]).is_relative && rs[i].module == m,
{
    lemma_effective_membership(rs, pkg);
    assert forall|m: Seq<char>| effective_modules(rs, pkg).contains(m) implies first_segment(m)
        != pkg && exists|i: int|
        0 <= i < rs.len() && !(#[trigger] rs[i]).is_relative && rs[i].module == m by {
        let i = choose|i: int|
            0 <= i < rs.len() && loadable(#[trigger] rs[i], pkg) && rs[i].module == m;
        assert(!rs[i].is_relative && rs[i].module == m);
    }
}

/// A set of module names with set-equality semantics; order of insertion is
/// not significant for its mathematical value.
pub struct ImportSet {
    pub modules: Vec<String>,
}

/// The set of names a string sequence holds.
pub open spec fn names_set(ss: Seq<String>) -> Set<Seq<char>> {
    Set::new(|m: Seq<char>| exists|i: int| 0 <= i < ss.len() && ss[i]@ == m)
}

impl View for ImportSet {
    type V = Set<Seq<char>>;

    open spec fn view(&self) -> Set<Seq<char>> {
        names_set(self.modules@)
    }
}

impl ImportSet {
    /// The member vector holds no duplicates.
    pub open spec fn wf(self) -> bool {
        forall|i: int, j: int|
            0 <= i < j < self.modules@.len() ==> self.modules@[i]@ != self.modules@[j]@
    }

    /// The empty import set.
    pub fn new() -> (s: ImportSet)
        ensures
            s.wf(),
            s@ == Set::<Seq<char>>::empty(),
    {
        let s = ImportSet { modules: Vec::new() };
        assert(s@ =~= Set::<Seq<char>>::empty());
        s
    }

    /// Whether `m` is a member.
    pub fn contains_name(&self, m: &String) -> (b: bool)
        ensures
            b == self@.contains(m@),
    {
        for i in 0..self.modules.len()
            invariant
                forall|j: int| 0 <= j < i ==> self.modules@[j]@ != m@,
        {
            if self.modules[i] == *m {
                return true;
            }
        }
        false
    }

    /// Inserts `m`; a member already present is kept once.
    pub fn insert(&mut self, m: String)
        requires
            old(self).wf(),
        ensures
            final(self).wf(),
            final(self)@ == old(self)@.insert(m@),
    {
        if !self.contains_name(&m) {
            let ghost prev = self.modules@;
            let ghost mv = m@;
            self.modules.push(m);
            assert(forall|j: int| 0 <= j < prev.len() ==> self.modules@[j] == prev[j]);
            assert forall|x: Seq<char>|
                self@.contains(x) == old(self)@.insert(mv).contains(x) by {
                if self@.contains(x) {
                    let i = choose|i: int| 0 <= i < self.modules@.len() && self.modules@[i]@ == x;
                    if i < prev.len() {
                        assert(old(self).modules@[i]@ == x);
                    } else {
                        assert(x == mv);
                    }
                }
                if old(self)@.contains(x) {
                    let i = choose|i: int|
                        0 <= i < old(self).modules@.len() && old(self).modules@[i]@ == x;
                    assert(self.modules@[i]@ == x);
                }
                if x == mv {
                    assert(self.modules@[prev.len() as int]@ == x);
                }
            }
            assert(self@ =~= old(self)@.insert(mv));
        } else {
            assert(self@ =~= old(self)@.insert(m@));
        }
    }

    /// The number of members.
    pub fn len(&self) -> (n: usize)
        ensures
            n == self.modules@.len(),
    {
        self.modules.len()
    }
}

/// The first dotted segment of a module name, as an owned string.
pub fn module_first_segment(m: &String) -> (seg: String)
    ensures
        seg@ == first_segment(m@),
{
    let s = m.as_str();
    let n = s.unicode_len();
    let mut k: usize = 0;
    while k < n && s.get_char(k) != '.'
        invariant
            0 <= k <= n,
            s@ == m@,
            n == s@.len(),
            forall|j: int| 0 <= j < k ==> m@[j] != '.',
        decreases n - k,
    {
        k = k + 1;
    }
    proof {
        lemma_first_dot(m@);
        assert(k as int == first_dot(m@));
    }
    s.substring_char(0, k).to_owned()
}

/// Whether a record's module belongs in the effective import set.
fn is_loadable(r: &ImportRecord, package: &String) -> (b: bool)
    ensures
        b == loadable(r@, package@),
{
    if r.is_relative {
        return false;
    }
    let s = r.module.as_str();
    let n = s.unicode_len();
    if n == 0 {
        return false;
    }
    for k in 0..n
        invariant
            s@ == r.module@,
            n == s@.len(),
            forall|j: int| 0 <= j < k ==> r.module@[j] != '/' && r.module@[j] != '\\',
    {
        let c = s.get_char(k);
        if c == '/' || c == '\\' {
            return false;
        }
    }
    let seg = module_first_segment(&r.module);
    if seg == *package {
        false
    } else {
        true
    }
}

/// Builds the effective import set of the collected records: the modules of
/// every absolute, well-formed import that is not first-party for `package`.
pub fn effective_import_set(records: &Vec<ImportRecord>, package: &String) -> (s: ImportSet)
    ensures
        s.wf(),
        s@ == effective_modules(records_view(records@), package@),
{
    let ghost rv = records_view(records@);
    let mut out = ImportSet::new();
    for i in 0..records.len()
        invariant
            out.wf(),
            rv == records_view(records@),
            rv.len() == records@.len(),
            out@ == effective_modules(rv.take(i as int), package@),
    {
        let ld = is_loadable(&records[i], package);
        proof {
            assert(rv.take(i + 1).drop_last() =~= rv.take(i as int));
            assert(rv.take(i + 1).last() == rv[i as int]);
            assert(rv[i as int] == records@[i as int]@);
        }
        if ld {
            out.insert(records[i].module.clone());
        }
    }
    assert(rv.take(records@.len() as int) =~= rv);
    out
}

} // verus!
