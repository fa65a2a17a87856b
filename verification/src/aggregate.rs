//! From the resolved packages to the mapping: which package contributes, how
//! its name and its authors are shown, and by which side the result is
//! grouped.

use crate::author::{display_name, normalize_author, shown_author, shown_name};
use crate::mapping::{AggregateMapping, Edge};
use crate::order::same_text;
use crate::relation::{
    all_of, edges_of, flipped, in_rows, inverted, lemma_edges_of_mapping, lemma_read_ends,
    lemma_read_next_row, lemma_read_step, mapping_of, read_before,
};
use vstd::prelude::*;
use vstd::string::*;

verus! {

/// One resolved package: its name and the author strings of its manifest.
pub struct PackageRecord {
    pub name: String,
    pub authors: Vec<String>,
}

/// A package record as texts.
pub struct PackageRecordView {
    pub name: Seq<char>,
    pub authors: Seq<Seq<char>>,
}

impl View for PackageRecord {
    type V = PackageRecordView;

    open spec fn view(&self) -> PackageRecordView {
        PackageRecordView { name: self.name@, authors: self.authors.deep_view() }
    }
}

/// The records of a list of packages, in its order.
pub open spec fn records_of(packages: Seq<PackageRecord>) -> Seq<PackageRecordView> {
    Seq::new(packages.len(), |i: int| packages[i]@)
}

/// The options of one run.
#[derive(Clone, Debug)]
pub struct Flags {
    /// Write machine-readable output.
    pub json: bool,
    /// Replace every author by a pseudonym.
    pub hide_authors: bool,
    /// Replace every e-mail address by a pseudonym.
    pub hide_emails: bool,
    /// Replace every package name by a pseudonym.
    pub hide_crates: bool,
    /// Leave out the package that is being analysed.
    pub ignore_self: bool,
    /// Group by package name, not by author.
    pub by_crate: bool,
    /// The project root; the current directory where absent.
    pub path: Option<String>,
}

/// The project root that the options name, as a text.
pub open spec fn project_path_of(path: Option<String>) -> Seq<char> {
    match path {
        Some(p) => p@,
        None => seq!['.'],
    }
}

impl Flags {
    /// The project root to resolve: the given path, or `.`.
    pub fn project_path(&self) -> (path: String)
        ensures
            path@ == project_path_of(self.path),
    {
        match &self.path {
            Some(p) => p.clone(),
            None => {
                proof {
                    reveal_strlit(".");
                    assert("."@ =~= seq!['.']);
                }
                String::from_str(".")
            },
        }
    }
}

/// The package is left out: self-exclusion is asked for and the package bears
/// the root's name. Names are compared as given, before any pseudonym is
/// taken.
pub open spec fn excluded(ignore_self: bool, root: Seq<char>, name: Seq<char>) -> bool {
    ignore_self && name == root
}

/// The edge that the `j`-th author of a record gives: from the author as
/// shown to the package name as shown.
pub open spec fn shown_edge(flags: Flags, record: PackageRecordView, j: int) -> Edge {
    (
        shown_author(record.authors[j], flags.hide_authors, flags.hide_emails),
        shown_name(record.name, flags.hide_crates),
    )
}

/// The `j`-th author of the `i`-th record gives an edge: both exist, and the
/// record is not left out.
pub open spec fn contributes(
    flags: Flags,
    root: Seq<char>,
    records: Seq<PackageRecordView>,
    i: int,
    j: int,
) -> bool {
    &&& 0 <= i < records.len()
    &&& 0 <= j < records[i].authors.len()
    &&& !excluded(flags.ignore_self, root, records[i].name)
}

/// The edges that one record contributes, in the order of its authors: from
/// each author as shown to the package name as shown. An excluded record
/// contributes none.
pub open spec fn record_row(flags: Flags, root: Seq<char>, record: PackageRecordView) -> Seq<Edge> {
    if excluded(flags.ignore_self, root, record.name) {
        Seq::<Edge>::empty()
    } else {
        Seq::new(record.authors.len(), |j: int| shown_edge(flags, record, j))
    }
}

/// The edges of all records, record by record.
pub open spec fn record_rows(flags: Flags, root: Seq<char>, records: Seq<PackageRecordView>) -> Seq<
    Seq<Edge>,
> {
    Seq::new(records.len(), |i: int| record_row(flags, root, records[i]))
}

/// The edges between authors and packages that the records give.
pub open spec fn author_edges(flags: Flags, root: Seq<char>, records: Seq<PackageRecordView>) -> Set<
    Edge,
> {
    all_of(record_rows(flags, root, records))
}

/// The mapping from each author to the packages that name the author.
pub open spec fn by_author(flags: Flags, root: Seq<char>, records: Seq<PackageRecordView>) -> Map<
    Seq<char>,
    Set<Seq<char>>,
> {
    mapping_of(author_edges(flags, root, records))
}

/// The mapping that a run yields: by author, or by package where that
/// grouping is asked for.
pub open spec fn grouped(flags: Flags, root: Seq<char>, records: Seq<PackageRecordView>) -> Map<
    Seq<char>,
    Set<Seq<char>>,
> {
    if flags.by_crate {
        inverted(by_author(flags, root, records))
    } else {
        by_author(flags, root, records)
    }
}

/// The edges of a run are those that the authors of the records that are not
/// left out give, and no others.
pub proof fn lemma_author_edges(flags: Flags, root: Seq<char>, records: Seq<PackageRecordView>)
    ensures
        forall|e: Edge|
            author_edges(flags, root, records).contains(e) <==> exists|i: int, j: int|
                contributes(flags, root, records, i, j) && #[trigger] shown_edge(
                    flags,
                    records[i],
                    j,
                ) == e,
{
    let rows = record_rows(flags, root, records);
    assert forall|e: Edge|
        author_edges(flags, root, records).contains(e) <==> exists|i: int, j: int|
            contributes(flags, root, records, i, j) && #[trigger] shown_edge(flags, records[i], j)
                == e by {
        if author_edges(flags, root, records).contains(e) {
            let (i, j) = choose|i: int, j: int| in_rows(rows, i, j) && #[trigger] rows[i][j] == e;
            assert(contributes(flags, root, records, i, j) && shown_edge(flags, records[i], j)
                == e);
        }
        if exists|i: int, j: int|
            contributes(flags, root, records, i, j) && #[trigger] shown_edge(flags, records[i], j)
                == e {
            let (i, j) = choose|i: int, j: int|
                contributes(flags, root, records, i, j) && #[trigger] shown_edge(
                    flags,
                    records[i],
                    j,
                ) == e;
            assert(in_rows(rows, i, j) && rows[i][j] == e);
        }
    }
}

/// Self-exclusion: where it is asked for, every edge of the run comes from a
/// record that does not bear the root's name, and every author of every such
/// record has an edge to its package. Where package names are shown as they
/// are, the root's name is then the package of no edge.
pub proof fn lemma_self_exclusion(flags: Flags, root: Seq<char>, records: Seq<PackageRecordView>)
    requires
        flags.ignore_self,
    ensures
        forall|e: Edge|
            author_edges(flags, root, records).contains(e) ==> exists|i: int, j: int|
                0 <= i < records.len() && 0 <= j < records[i].authors.len() && records[i].name
                    != root && #[trigger] shown_edge(flags, records[i], j) == e,
        forall|i: int, j: int|
            0 <= i < records.len() && 0 <= j < records[i].authors.len() && records[i].name != root
                ==> author_edges(flags, root, records).contains(
                #[trigger] shown_edge(flags, records[i], j),
            ),
        !flags.hide_crates ==> forall|author: Seq<char>|
            !author_edges(flags, root, records).contains((author, root)),
{
    lemma_author_edges(flags, root, records);
    let edges = author_edges(flags, root, records);
    assert forall|e: Edge| edges.contains(e) implies exists|i: int, j: int|
        0 <= i < records.len() && 0 <= j < records[i].authors.len() && records[i].name != root
            && #[trigger] shown_edge(flags, records[i], j) == e by {
        let (i, j) = choose|i: int, j: int|
            contributes(flags, root, records, i, j) && #[trigger] shown_edge(flags, records[i], j)
                == e;
        assert(records[i].name != root && shown_edge(flags, records[i], j) == e);
    }
    assert forall|i: int, j: int|
        0 <= i < records.len() && 0 <= j < records[i].authors.len() && records[i].name
            != root implies edges.contains(#[trigger] shown_edge(flags, records[i], j)) by {
        assert(contributes(flags, root, records, i, j));
    }
    if !flags.hide_crates {
        assert forall|author: Seq<char>| !edges.contains((author, root)) by {
            if edges.contains((author, root)) {
                let (i, j) = choose|i: int, j: int|
                    contributes(flags, root, records, i, j) && #[trigger] shown_edge(
                        flags,
                        records[i],
                        j,
                    ) == (author, root);
                assert(records[i].name == root);
            }
        }
    }
}

/// Self-exclusion in the mapping of a run: where it is asked for and package
/// names are shown as they are, the root's name stands under no author, and,
/// grouped by package, is no key.
pub proof fn lemma_root_absent(flags: Flags, root: Seq<char>, records: Seq<PackageRecordView>)
    requires
        flags.ignore_self,
        !flags.hide_crates,
    ensures
        forall|author: Seq<char>|
            by_author(flags, root, records).dom().contains(author) ==> !(#[trigger] by_author(
                flags,
                root,
                records,
            )[author]).contains(root),
        !inverted(by_author(flags, root, records)).dom().contains(root),
        flags.by_crate ==> !grouped(flags, root, records).dom().contains(root),
        !flags.by_crate ==> forall|author: Seq<char>|
            grouped(flags, root, records).dom().contains(author) ==> !(#[trigger] grouped(
                flags,
                root,
                records,
            )[author]).contains(root),
{
    lemma_self_exclusion(flags, root, records);
    let edges = author_edges(flags, root, records);
    let forward = by_author(flags, root, records);
    lemma_edges_of_mapping(edges);
    let back = inverted(forward);
    if back.dom().contains(root) {
        let author = choose|author: Seq<char>| flipped(edges_of(forward)).contains((root, author));
        assert(edges.contains((author, root)));
    }
}

/// Builds the mapping for one run from the resolved packages.
pub struct DependencyAccumulator {
    flags: Flags,
}

impl DependencyAccumulator {
    /// An accumulator that works by the given options.
    pub fn new(flags: Flags) -> (acc: Self)
        ensures
            acc.flags() == flags,
    {
        DependencyAccumulator { flags }
    }

    /// The options that the accumulator works by.
    pub closed spec fn flags(&self) -> Flags {
        self.flags
    }

    /// The mapping from author to packages. `root` is the name of the package
    /// that is being analysed.
    pub fn aggregate(&self, root: &str, packages: &Vec<PackageRecord>) -> (out: AggregateMapping)
        ensures
            out.wf(),
            out.edges() == author_edges(self.flags(), root@, records_of(packages@)),
            out@ == by_author(self.flags(), root@, records_of(packages@)),
    {
        let ghost records = records_of(packages@);
        let ghost rows = record_rows(self.flags, root@, records);
        let mut out = AggregateMapping::new();
        proof {
            lemma_read_ends(rows);
        }
        let mut i: usize = 0;
        while i < packages.len()
            invariant
                records == records_of(packages@),
                rows == record_rows(self.flags, root@, records),
                out.wf(),
                i <= packages@.len(),
                out.edges() == read_before(rows, i as int, 0),
            decreases packages@.len() - i,
        {
            let package = &packages[i];
            assert(records[i as int] == package@);
            let skip = self.flags.ignore_self && same_text(package.name.as_str(), root);
            if !skip {
                let name = display_name(package.name.as_str(), self.flags.hide_crates);
                let mut j: usize = 0;
                while j < package.authors.len()
                    invariant
                        rows == record_rows(self.flags, root@, records),
                        i < records.len(),
                        records[i as int] == package@,
                        !excluded(self.flags.ignore_self, root@, package@.name),
                        name@ == shown_name(package@.name, self.flags.hide_crates),
                        out.wf(),
                        j <= package.authors@.len(),
                        out.edges() == read_before(rows, i as int, j as int),
                    decreases package.authors@.len() - j,
                {
                    assert(package@.authors[j as int] == package.authors@[j as int]@);
                    let author = normalize_author(
                        package.authors[j].as_str(),
                        self.flags.hide_authors,
                        self.flags.hide_emails,
                    );
                    out.insert(author, name.clone());
                    proof {
                        assert(in_rows(rows, i as int, j as int));
                        lemma_read_step(rows, i as int, j as int);
                    }
                    j += 1;
                }
            }
            proof {
                lemma_read_next_row(rows, i as int);
            }
            i += 1;
        }
        proof {
            lemma_read_ends(rows);
        }
        out
    }

    /// The mapping of the run: from author to packages, or, where grouping
    /// by package is asked for, from package to authors.
    pub fn accumulate(&self, root: &str, packages: &Vec<PackageRecord>) -> (out: AggregateMapping)
        ensures
            out.wf(),
            out@ == grouped(self.flags(), root@, records_of(packages@)),
    {
        let forward = self.aggregate(root, packages);
        if self.flags.by_crate {
            forward.invert()
        } else {
            forward
        }
    }
}

} // verus!
