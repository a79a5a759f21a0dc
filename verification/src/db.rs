//! The tracked items and the staged files.
use vstd::prelude::*;

verus! {

/// The files staged for the next commit.
#[derive(Debug)]
pub struct StagedFiles {
    pub files: Vec<String>,
}

/// The views of a sequence of strings.
pub open spec fn string_views(v: Seq<String>) -> Seq<Seq<char>> {
    v.map_values(|s: String| s@)
}

impl View for StagedFiles {
    type V = Seq<Seq<char>>;

    open spec fn view(&self) -> Seq<Seq<char>> {
        string_views(self.files@)
    }
}

impl Default for StagedFiles {
    fn default() -> (r: Self)
        ensures
            r@ == Seq::<Seq<char>>::empty(),
    {
        let r = StagedFiles { files: Vec::new() };
        assert(r@ =~= Seq::<Seq<char>>::empty());
        r
    }
}

/// Whether `path` is among `files`.
pub fn contains_path(files: &Vec<String>, path: &String) -> (r: bool)
    ensures
        r == string_views(files@).contains(path@),
{
    let mut i: usize = 0;
    while i < files.len()
        invariant
            i <= files@.len(),
            forall|k: int| 0 <= k < i ==> files@[k]@ != path@,
        decreases files@.len() - i,
    {
        if files[i] == *path {
            assert(string_views(files@)[i as int] == path@);
            return true;
        }
        i = i + 1;
    }
    assert forall|k: int| 0 <= k < string_views(files@).len() implies string_views(files@)[k]
        != path@ by {
        assert(string_views(files@)[k] == files@[k]@);
    }
    false
}

impl StagedFiles {
    /// Stages `path`, unless it is staged already; says whether it was added.
    pub fn stage(&mut self, path: String) -> (added: bool)
        ensures
            added == !old(self)@.contains(path@),
            added ==> final(self)@ == old(self)@.push(path@),
            !added ==> final(self)@ == old(self)@,
    {
        if contains_path(&self.files, &path) {
            false
        } else {
            let ghost before = self@;
            let ghost p = path@;
            self.files.push(path);
            assert(self@ =~= before.push(p));
            true
        }
    }

    /// Unstages every file; says how many there were.
    pub fn reset(&mut self) -> (count: usize)
        ensures
            count == old(self)@.len(),
            final(self)@ == Seq::<Seq<char>>::empty(),
    {
        let count = self.files.len();
        self.files.clear();
        assert(self@ =~= Seq::<Seq<char>>::empty());
        count
    }
}

/// A tracked marker.
#[derive(Debug)]
pub struct DbItem {
    pub id: u64,
    pub item_type: String,
    pub file: String,
    /// The 1-based line of the marker.
    pub line: usize,
    /// The 1-based byte column of the marker, or 0 when it is not known.
    pub column: usize,
    pub status: String,
    pub content: String,
}

/// The abstract content of a [`DbItem`].
pub struct ItemView {
    pub id: u64,
    pub item_type: Seq<char>,
    pub file: Seq<char>,
    pub line: usize,
    pub column: usize,
    pub status: Seq<char>,
    pub content: Seq<char>,
}

impl View for DbItem {
    type V = ItemView;

    open spec fn view(&self) -> ItemView {
        ItemView {
            id: self.id,
            item_type: self.item_type@,
            file: self.file@,
            line: self.line,
            column: self.column,
            status: self.status@,
            content: self.content@,
        }
    }
}

/// The tracked markers and the last id given out.
#[derive(Debug)]
pub struct Database {
    pub counter: u64,
    pub items: Vec<DbItem>,
}

/// The views of a sequence of items.
pub open spec fn item_views(v: Seq<DbItem>) -> Seq<ItemView> {
    v.map_values(|it: DbItem| it@)
}

/// The abstract content of a [`Database`].
pub struct DatabaseView {
    pub counter: u64,
    pub items: Seq<ItemView>,
}

impl View for Database {
    type V = DatabaseView;

    open spec fn view(&self) -> DatabaseView {
        DatabaseView { counter: self.counter, items: item_views(self.items@) }
    }
}

impl Default for Database {
    fn default() -> (r: Self)
        ensures
            r@.counter == 0,
            r@.items == Seq::<ItemView>::empty(),
    {
        let r = Database { counter: 0, items: Vec::new() };
        assert(r@.items =~= Seq::<ItemView>::empty());
        r
    }
}

} // verus!
