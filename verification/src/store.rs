//! The files of a directory of databases and of a database.
use vstd::prelude::*;
use crate::error::VectLiteError;
use crate::order::same_text;
use crate::text::{chars_of, concat2, concat3};
use crate::sort::{sort, sorted};

verus! {

/// The file of a collection.
pub open spec fn collection_name_file(name: Seq<char>) -> Seq<char> {
    name + ".vdb"@
}

/// The file of a collection.
pub fn collection_file(name: &str) -> (r: String)
    ensures
        r@ == collection_name_file(name@),
{
    concat2(name, ".vdb")
}

/// Whether a text ends in another.
pub open spec fn ends_in(s: Seq<char>, end: Seq<char>) -> bool {
    end.len() <= s.len() && s.skip(s.len() - end.len()) == end
}

/// Whether a text starts with another.
pub open spec fn starts_in(s: Seq<char>, start: Seq<char>) -> bool {
    start.len() <= s.len() && s.take(start.len() as int) == start
}

fn has_end(s: &str, end: &str) -> (r: bool)
    ensures
        r == ends_in(s@, end@),
{
    let a = chars_of(s);
    let b = chars_of(end);
    if b.len() > a.len() {
        return false;
    }
    let total: usize = a.len();
    let offset: usize = total - b.len();
    let mut i: usize = 0;
    while i < b.len()
        invariant
            a@ == s@,
            b@ == end@,
            i <= b@.len() <= a@.len(),
            total == a@.len(),
            offset == total - b@.len(),
            forall|k: int| 0 <= k < i ==> a@[offset + k] == b@[k],
        decreases b@.len() - i,
    {
        if a[offset + i] != b[i] {
            proof {
                assert(s@.skip(offset as int)[i as int] != end@[i as int]);
            }
            return false;
        }
        i += 1;
    }
    proof {
        assert(s@.skip(offset as int) =~= end@);
    }
    true
}

fn has_start(s: &str, start: &str) -> (r: bool)
    ensures
        r == starts_in(s@, start@),
{
    let a = chars_of(s);
    let b = chars_of(start);
    if b.len() > a.len() {
        return false;
    }
    let mut i: usize = 0;
    while i < b.len()
        invariant
            a@ == s@,
            b@ == start@,
            i <= b@.len() <= a@.len(),
            forall|k: int| 0 <= k < i ==> a@[k] == b@[k],
        decreases b@.len() - i,
    {
        if a[i] != b[i] {
            proof {
                assert(s@.take(b@.len() as int)[i as int] != start@[i as int]);
            }
            return false;
        }
        i += 1;
    }
    proof {
        assert(s@.take(b@.len() as int) =~= start@);
    }
    true
}

/// The collection of a file. A file that is all extension belongs to none.
pub open spec fn collection_of(file: Seq<char>) -> Option<Seq<char>> {
    if ends_in(file, ".vdb"@) && file.len() > ".vdb"@.len() {
        Some(file.take(file.len() - ".vdb"@.len()))
    } else {
        None
    }
}

/// The collections of the first `n` files.
pub open spec fn collections_of(files: Seq<Seq<char>>, n: nat) -> Seq<Seq<char>>
    decreases n,
{
    if n == 0 || n > files.len() {
        Seq::empty()
    } else {
        match collection_of(files[n - 1]) {
            Some(name) => collections_of(files, (n - 1) as nat).push(name),
            None => collections_of(files, (n - 1) as nat),
        }
    }
}

fn strip_extension(file: &str) -> (r: Option<String>)
    ensures
        match collection_of(file@) {
            Some(name) => r matches Some(x) && x@ == name,
            None => r is None,
        },
{
    proof {
        reveal_strlit(".vdb");
    }
    if !has_end(file, ".vdb") {
        return None;
    }
    let chars = chars_of(file);
    if chars.len() <= 4 {
        return None;
    }
    let name = file.substring_char(0, chars.len() - 4).to_owned();
    proof {
        assert(name@ =~= file@.take(file@.len() - 4));
    }
    Some(name)
}

/// The names of the collections among the files of a directory, in ascending order.
pub fn collections(files: &Vec<String>) -> (r: Vec<String>)
    ensures
        r.deep_view() == sorted::<String>(collections_of(files.deep_view(), files@.len())),
{
    let ghost all = files.deep_view();
    let mut out: Vec<String> = Vec::new();
    let mut i: usize = 0;
    proof {
        assert(out.deep_view() =~= Seq::<Seq<char>>::empty());
    }
    while i < files.len()
        invariant
            i <= files@.len(),
            all == files.deep_view(),
            out.deep_view() == collections_of(all, i as nat),
        decreases files@.len() - i,
    {
        let ghost before = out.deep_view();
        proof {
            assert(all[i as int] == files@[i as int]@);
        }
        match strip_extension(files[i].as_str()) {
            Some(name) => {
                out.push(name);
                proof {
                    assert(out.deep_view() =~= before.push(name@));
                }
            },
            None => {},
        }
        i += 1;
    }
    sort(out)
}

/// A collection is found under its own name.
pub proof fn law_collection_found(name: Seq<char>)
    requires
        name.len() > 0,
    ensures
        collection_of(collection_name_file(name)) == Some(name),
{
    reveal_strlit(".vdb");
    let file = collection_name_file(name);
    assert(file.skip(file.len() - 4) =~= ".vdb"@);
    assert(file.take(file.len() - 4) =~= name);
}

/// What the check for a new collection says.
pub fn check_new_collection(name: &str, present: bool) -> (r: Result<(), VectLiteError>)
    ensures
        r is Ok <==> !present,
        r matches Err(e) ==> e matches VectLiteError::InvalidFormat(m) && m@ == "collection '"@
            + name@ + "' already exists"@,
{
    if present {
        Err(VectLiteError::InvalidFormat(concat3("collection '", name, "' already exists")))
    } else {
        Ok(())
    }
}

/// What the check for a collection to open says.
pub fn check_known_collection(name: &str, present: bool) -> (r: Result<(), VectLiteError>)
    ensures
        r is Ok <==> present,
        r matches Err(e) ==> e matches VectLiteError::InvalidFormat(m) && m@ == "collection '"@
            + name@ + "' does not exist"@,
{
    if present {
        Ok(())
    } else {
        Err(VectLiteError::InvalidFormat(concat3("collection '", name, "' does not exist")))
    }
}

/// A file beside a database.
pub enum Sidecar {
    /// The log of writes.
    Log,
    /// The file that is locked.
    Lock,
    /// The parameters of the quantized index.
    Quantization,
    /// The parameters of the quantized index of a space of token vectors.
    Tokens(String),
    /// The list of stored graphs.
    Graphs,
    /// The definitions of payload indexes.
    Indexes,
    /// A file that is being written.
    Scratch,
}

impl Sidecar {
    /// What is put behind the name of the database.
    pub open spec fn suffix_of(self) -> Seq<char> {
        match self {
            Sidecar::Log => ".wal"@,
            Sidecar::Lock => ".lock"@,
            Sidecar::Quantization => ".quant"@,
            Sidecar::Tokens(space) => ".mvquant."@ + space@,
            Sidecar::Graphs => ".ann"@,
            Sidecar::Indexes => ".pidx"@,
            Sidecar::Scratch => ".tmp"@,
        }
    }

    /// What is put behind the name of the database.
    pub fn suffix(&self) -> (r: String)
        ensures
            r@ == self.suffix_of(),
    {
        match self {
            Sidecar::Log => ".wal".to_owned(),
            Sidecar::Lock => ".lock".to_owned(),
            Sidecar::Quantization => ".quant".to_owned(),
            Sidecar::Tokens(space) => concat2(".mvquant.", space.as_str()),
            Sidecar::Graphs => ".ann".to_owned(),
            Sidecar::Indexes => ".pidx".to_owned(),
            Sidecar::Scratch => ".tmp".to_owned(),
        }
    }
}

/// Whether a file holds a graph of a database.
pub open spec fn graph_file(database: Seq<char>, file: Seq<char>) -> bool {
    starts_in(file, database + ".ann."@)
}

/// Whether a file holds a graph of a database.
pub fn is_graph_file(database: &str, file: &str) -> (r: bool)
    ensures
        r == graph_file(database@, file@),
{
    has_start(file, concat2(database, ".ann.").as_str())
}

/// Whether a file is one of a database: the database itself, or what is kept beside it.
pub open spec fn own_file(database: Seq<char>, file: Seq<char>) -> bool {
    ||| file == database
    ||| file == database + ".wal"@
    ||| file == database + ".lock"@
    ||| file == database + ".quant"@
    ||| file == database + ".ann"@
    ||| file == database + ".pidx"@
    ||| file == database + ".tmp"@
    ||| graph_file(database, file)
    ||| starts_in(file, database + ".mvquant."@)
}

/// Whether a file is one of a database.
pub fn is_own_file(database: &str, file: &str) -> (r: bool)
    ensures
        r == own_file(database@, file@),
{
    same_text(file, database) || same_text(file, concat2(database, ".wal").as_str()) || same_text(
        file,
        concat2(database, ".lock").as_str(),
    ) || same_text(file, concat2(database, ".quant").as_str()) || same_text(
        file,
        concat2(database, ".ann").as_str(),
    ) || same_text(file, concat2(database, ".pidx").as_str()) || same_text(
        file,
        concat2(database, ".tmp").as_str(),
    ) || is_graph_file(database, file) || has_start(file, concat2(database, ".mvquant.").as_str())
}

/// The positions of the files of a collection among those of a directory, in ascending order.
pub fn collection_files(name: &str, files: &Vec<String>) -> (r: Vec<usize>)
    ensures
        forall|i: int, j: int| 0 <= i < j < r@.len() ==> r@[i] < r@[j],
        forall|p: usize|
            r@.contains(p) <==> p < files@.len() && own_file(
                collection_name_file(name@),
                #[trigger] files@[p as int]@,
            ),
{
    let database = collection_file(name);
    let mut out: Vec<usize> = Vec::new();
    let mut i: usize = 0;
    while i < files.len()
        invariant
            i <= files@.len(),
            database@ == collection_name_file(name@),
            forall|a: int, b: int| 0 <= a < b < out@.len() ==> out@[a] < out@[b],
            forall|a: int| 0 <= a < out@.len() ==> (#[trigger] out@[a]) < i,
            forall|p: usize|
                out@.contains(p) <==> p < i && own_file(database@, #[trigger] files@[p as int]@),
        decreases files@.len() - i,
    {
        let own: bool = is_own_file(database.as_str(), files[i].as_str());
        if own {
            let ghost before = out@;
            out.push(i);
            proof {
                assert forall|p: usize|
                    out@.contains(p) <==> p < i + 1 && own_file(
                        database@,
                        #[trigger] files@[p as int]@,
                    ) by {
                    if before.contains(p) {
                        let a = choose|a: int| 0 <= a < before.len() && before[a] == p;
                        assert(out@[a] == p);
                    }
                    if p == i {
                        assert(out@[before.len() as int] == p);
                    }
                    if out@.contains(p) && p != i {
                        let a = choose|a: int| 0 <= a < out@.len() && out@[a] == p;
                        assert(before[a] == p);
                    }
                }
            }
        }
        i += 1;
    }
    out
}

/// Every file that is kept beside a database is one of its files.
pub proof fn law_sidecars_owned(database: Seq<char>, kind: Sidecar)
    ensures
        own_file(database, database + kind.suffix_of()),
{
    if let Sidecar::Tokens(space) = kind {
        let prefix = database + ".mvquant."@;
        assert((database + kind.suffix_of()).take(prefix.len() as int) =~= prefix);
    }
}

/// The database of another collection is no file of a collection, unless its name is that of a
/// graph or of token parameters.
pub proof fn law_collections_apart(name: Seq<char>, other: Seq<char>)
    requires
        name != other,
        !starts_in(collection_name_file(other), collection_name_file(name) + ".ann."@),
        !starts_in(collection_name_file(other), collection_name_file(name) + ".mvquant."@),
    ensures
        !own_file(collection_name_file(name), collection_name_file(other)),
{
    reveal_strlit(".vdb");
    reveal_strlit(".wal");
    reveal_strlit(".lock");
    reveal_strlit(".quant");
    reveal_strlit(".ann");
    reveal_strlit(".pidx");
    reveal_strlit(".tmp");
    let a = collection_name_file(name);
    let b = collection_name_file(other);
    if a == b {
        assert(name =~= a.take(a.len() - 4));
        assert(other =~= b.take(b.len() - 4));
    }
    assert(b[b.len() - 1] == 'b');
    assert((a + ".wal"@).last() == 'l');
    assert((a + ".lock"@).last() == 'k');
    assert((a + ".quant"@).last() == 't');
    assert((a + ".ann"@).last() == 'n');
    assert((a + ".pidx"@).last() == 'x');
    assert((a + ".tmp"@).last() == 'p');
}

/// Whether a file is brought back with a database: a graph, or any list of graphs.
pub fn is_restored_file(database: &str, file: &str) -> (r: bool)
    ensures
        r == (graph_file(database@, file@) || ends_in(file@, ".ann"@)),
{
    is_graph_file(database, file) || has_end(file, ".ann")
}

/// The space of token vectors whose parameters a file holds. A space has a name.
pub open spec fn token_space_of(database: Seq<char>, file: Seq<char>) -> Option<Seq<char>> {
    let prefix = database + ".mvquant."@;
    if starts_in(file, prefix) && file.len() > prefix.len() {
        Some(file.skip(prefix.len() as int))
    } else {
        None
    }
}

/// The space of token vectors whose parameters a file holds.
pub fn token_space(database: &str, file: &str) -> (r: Option<String>)
    ensures
        match token_space_of(database@, file@) {
            Some(space) => r matches Some(x) && x@ == space,
            None => r is None,
        },
{
    let prefix = concat2(database, ".mvquant.");
    if !has_start(file, prefix.as_str()) {
        return None;
    }
    let start: usize = chars_of(prefix.as_str()).len();
    let chars = chars_of(file);
    if chars.len() == start {
        return None;
    }
    let space = file.substring_char(start, chars.len()).to_owned();
    proof {
        assert(space@ =~= file@.skip(start as int));
    }
    Some(space)
}

/// The file of a space's parameters names the space.
pub proof fn law_token_space_found(database: Seq<char>, space: Seq<char>)
    requires
        space.len() > 0,
    ensures
        token_space_of(database, database + (".mvquant."@ + space)) == Some(space),
{
    let prefix = database + ".mvquant."@;
    let file = database + (".mvquant."@ + space);
    assert(file =~= prefix + space);
    assert(file.take(prefix.len() as int) =~= prefix);
    assert(file.skip(prefix.len() as int) =~= space);
}

} // verus!
