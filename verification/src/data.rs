use vstd::prelude::*;

verus! {

/// The metadata tag that travels with stored content.
pub struct FileMetadata {
    pub filename: Vec<u8>,
}

/// A piece of stored content: raw bytes plus a filename tag.
pub struct Data {
    pub id: u32,
    pub vec: Vec<u8>,
    pub file_meta: FileMetadata,
}

/// The mathematical model of a `Data` value.
pub struct DataModel {
    pub id: u32,
    pub vec: Seq<u8>,
    pub filename: Seq<u8>,
}

impl View for Data {
    type V = DataModel;

    open spec fn view(&self) -> DataModel {
        DataModel { id: self.id, vec: self.vec@, filename: self.file_meta.filename@ }
    }
}

/// The model of the empty content value.
pub open spec fn empty_data_model() -> DataModel {
    DataModel { id: 0, vec: Seq::empty(), filename: Seq::empty() }
}

impl Clone for FileMetadata {
    fn clone(&self) -> (r: Self)
        ensures
            r.filename@ == self.filename@,
    {
        FileMetadata { filename: clone_bytes(&self.filename) }
    }
}

impl Clone for Data {
    fn clone(&self) -> (r: Self)
        ensures
            r@ == self@,
    {
        Data { id: self.id, vec: clone_bytes(&self.vec), file_meta: self.file_meta.clone() }
    }
}

impl Data {
    /// The sentinel value that stands for absent content.
    pub fn create_empty() -> (r: Data)
        ensures
            r@ == empty_data_model(),
    {
        let r = Data { id: 0, vec: Vec::new(), file_meta: FileMetadata { filename: Vec::new() } };
        assert(r@.vec =~= empty_data_model().vec);
        assert(r@.filename =~= empty_data_model().filename);
        r
    }
}

/// Copies a byte vector.
pub fn clone_bytes(v: &Vec<u8>) -> (r: Vec<u8>)
    ensures
        r@ == v@,
{
    let mut r: Vec<u8> = Vec::new();
    let mut i: usize = 0;
    while i < v.len()
        invariant
            i <= v.len(),
            r@ == v@.subrange(0, i as int),
        decreases v.len() - i,
    {
        r.push(v[i]);
        i = i + 1;
        assert(r@ =~= v@.subrange(0, i as int));
    }
    assert(r@ =~= v@);
    r
}

/// Byte-vector equality.
pub fn bytes_eq(a: &Vec<u8>, b: &Vec<u8>) -> (r: bool)
    ensures
        r == (a@ == b@),
{
    if a.len() != b.len() {
        assert(a@ !~= b@);
        return false;
    }
    let mut i: usize = 0;
    while i < a.len()
        invariant
            i <= a.len(),
            a@.len() == b@.len(),
            forall|j: int| 0 <= j < i ==> a@[j] == b@[j],
        decreases a.len() - i,
    {
        if a[i] != b[i] {
            return false;
        }
        i = i + 1;
    }
    assert(a@ =~= b@);
    true
}

} // verus!
