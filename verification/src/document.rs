//! A PDF document as the form logic reads it: its objects, its trailer and
//! its pages, with the lookups and dereferencing rules of PDF 32000-1, 7.3.10.

use vstd::prelude::*;
use lopdf::Error as LopdfError;
use crate::object::{dict_get, keys_unique, kind_name, type_of, DictView, Obj, ObjectId, PdfDict, PdfObject};

verus! {

/// A document's indirect objects, its trailer dictionary, its pages in
/// order, and whether it was decrypted as it was read. Object numbers are
/// unique in a document read from a file; every lookup goes by the first
/// object with a number.
#[derive(Debug)]
pub struct PdfDocument {
    pub objects: Vec<(ObjectId, PdfObject)>,
    pub trailer: PdfDict,
    pub pages: Vec<ObjectId>,
    /// The file was encrypted, and its objects were decrypted as they were
    /// read (lopdf's `Document::was_encrypted`).
    pub was_encrypted: bool,
}

/// The mathematical value of a document.
pub struct DocView {
    pub objects: Seq<(ObjectId, Obj)>,
    pub trailer: DictView,
    pub pages: Seq<ObjectId>,
    pub was_encrypted: bool,
}

pub open spec fn objects_view(s: Seq<(ObjectId, PdfObject)>) -> Seq<(ObjectId, Obj)>
    decreases s.len(),
{
    if s.len() == 0 {
        Seq::empty()
    } else {
        objects_view(s.drop_last()).push((s.last().0, s.last().1@))
    }
}

pub proof fn lemma_objects_view(s: Seq<(ObjectId, PdfObject)>)
    ensures
        objects_view(s).len() == s.len(),
        forall|i: int| 0 <= i < s.len() ==> #[trigger] objects_view(s)[i] == (s[i].0, s[i].1@),
    decreases s.len(),
{
    if s.len() > 0 {
        lemma_objects_view(s.drop_last());
    }
}

impl View for PdfDocument {
    type V = DocView;

    open spec fn view(&self) -> DocView {
        DocView {
            objects: objects_view(self.objects@),
            trailer: self.trailer@,
            pages: self.pages@,
            was_encrypted: self.was_encrypted,
        }
    }
}

/// What goes wrong when an object is looked up, followed or written.
#[derive(Debug)]
pub enum PdfError {
    /// No object has this number.
    ObjectNotFound(ObjectId),
    /// A chain of references longer than a reader follows.
    ReferenceLimit,
    /// The object is not of the type the operation needs: the type needed,
    /// and the type found.
    WrongType { expected: &'static str, found: &'static str },
    /// A dictionary lacks a key the operation needs.
    MissingKey(Vec<u8>),
    /// The bytes could not be read as a PDF.
    Load(LopdfError),
    /// The update could not be written.
    Save(LopdfError),
}

/// The mathematical value of a [`PdfError`].
pub enum Fault {
    ObjectNotFound(ObjectId),
    ReferenceLimit,
    WrongType(Seq<char>, Seq<char>),
    MissingKey(Seq<u8>),
    Load,
    Save,
}

impl View for PdfError {
    type V = Fault;

    open spec fn view(&self) -> Fault {
        match self {
            PdfError::ObjectNotFound(id) => Fault::ObjectNotFound(*id),
            PdfError::ReferenceLimit => Fault::ReferenceLimit,
            PdfError::WrongType { expected, found } => Fault::WrongType(expected@, found@),
            PdfError::MissingKey(k) => Fault::MissingKey(k@),
            PdfError::Load(_) => Fault::Load,
            PdfError::Save(_) => Fault::Save,
        }
    }
}

/// How many references a lookup follows before giving up.
pub const DEREF_LIMIT: usize = 128;

/// Whether `i` is the position of the first object numbered `id`.
pub open spec fn is_first_id(objs: Seq<(ObjectId, Obj)>, id: ObjectId, i: int) -> bool {
    &&& 0 <= i < objs.len()
    &&& objs[i].0 == id
    &&& forall|j: int| 0 <= j < i ==> objs[j].0 != id
}

/// The position of the first object numbered `id`, or -1.
pub open spec fn id_pos(objs: Seq<(ObjectId, Obj)>, id: ObjectId) -> int {
    if exists|i: int| is_first_id(objs, id, i) {
        choose|i: int| is_first_id(objs, id, i)
    } else {
        -1
    }
}

pub proof fn lemma_id_pos_found(objs: Seq<(ObjectId, Obj)>, id: ObjectId, i: int)
    requires
        is_first_id(objs, id, i),
    ensures
        id_pos(objs, id) == i,
{
    let j = choose|j: int| is_first_id(objs, id, j);
    assert(is_first_id(objs, id, j));
    if j < i {
        assert(objs[j].0 != id);
    }
    if i < j {
        assert(objs[i].0 != id);
    }
}

/// With no first position, no object has the number at all.
pub proof fn lemma_id_pos_absent(objs: Seq<(ObjectId, Obj)>, id: ObjectId)
    requires
        id_pos(objs, id) == -1,
    ensures
        forall|j: int| 0 <= j < objs.len() ==> objs[j].0 != id,
{
    assert forall|j: int| 0 <= j < objs.len() implies objs[j].0 != id by {
        if objs[j].0 == id {
            let i = first_id_at_or_before(objs, id, j);
            assert(is_first_id(objs, id, i));
        }
    }
}

/// Some first position of `id` at or before `j`, given that `objs[j]` has it.
pub proof fn first_id_at_or_before(objs: Seq<(ObjectId, Obj)>, id: ObjectId, j: int) -> (i: int)
    requires
        0 <= j < objs.len(),
        objs[j].0 == id,
    ensures
        is_first_id(objs, id, i),
    decreases j,
{
    if exists|m: int| 0 <= m < j && objs[m].0 == id {
        let m = choose|m: int| 0 <= m < j && objs[m].0 == id;
        first_id_at_or_before(objs, id, m)
    } else {
        j
    }
}

/// The object numbered `id`, if there is one.
pub open spec fn lookup(objs: Seq<(ObjectId, Obj)>, id: ObjectId) -> Option<Obj> {
    if id_pos(objs, id) >= 0 {
        Some(objs[id_pos(objs, id)].1)
    } else {
        None
    }
}

/// Whether every dictionary among some objects has unique keys, as in every
/// document read from a file.
pub open spec fn dicts_unique(objs: Seq<(ObjectId, Obj)>) -> bool {
    forall|i: int|
        0 <= i < objs.len() ==> ((#[trigger] objs[i]).1 matches Obj::Dict(d) ==> keys_unique(d))
}

/// The first position of a number is a position of it, or there is none.
pub proof fn lemma_id_pos_range(objs: Seq<(ObjectId, Obj)>, id: ObjectId)
    ensures
        id_pos(objs, id) == -1 || is_first_id(objs, id, id_pos(objs, id)),
{
}

/// Appending an object under a number the objects lack makes it the object
/// of that number, and leaves every other number's.
pub proof fn lemma_lookup_push(objs: Seq<(ObjectId, Obj)>, id: ObjectId, o: Obj)
    requires
        lookup(objs, id) is None,
    ensures
        forall|x: ObjectId| #[trigger] lookup(objs.push((id, o)), x) == if x == id {
            Some(o)
        } else {
            lookup(objs, x)
        },
{
    let e = objs.push((id, o));
    lemma_id_pos_range(objs, id);
    lemma_id_pos_absent(objs, id);
    assert(is_first_id(e, id, objs.len() as int));
    lemma_id_pos_found(e, id, objs.len() as int);
    assert forall|x: ObjectId| #[trigger] lookup(objs.push((id, o)), x) == if x == id {
        Some(o)
    } else {
        lookup(objs, x)
    } by {
        if x != id {
            lemma_id_pos_range(objs, x);
            let q = id_pos(objs, x);
            if q >= 0 {
                assert(is_first_id(e, x, q));
                lemma_id_pos_found(e, x, q);
            } else {
                lemma_id_pos_absent(objs, x);
                assert(!exists|i: int| is_first_id(e, x, i)) by {
                    if exists|i: int| is_first_id(e, x, i) {
                        let i = choose|i: int| is_first_id(e, x, i);
                        assert(e[i].0 == x);
                        if i < objs.len() {
                            assert(objs[i] == e[i]);
                        }
                    }
                }
            }
        }
    }
}

/// Replacing the object of a number the objects have leaves every other
/// number's.
pub proof fn lemma_lookup_replace(objs: Seq<(ObjectId, Obj)>, id: ObjectId, o: Obj)
    requires
        lookup(objs, id) is Some,
    ensures
        forall|x: ObjectId| #[trigger] lookup(objs.update(id_pos(objs, id), (id, o)), x) == if x
            == id {
            Some(o)
        } else {
            lookup(objs, x)
        },
{
    let p = id_pos(objs, id);
    let e = objs.update(p, (id, o));
    lemma_id_pos_range(objs, id);
    assert forall|i: int| 0 <= i < e.len() implies #[trigger] e[i].0 == objs[i].0 by {}
    assert forall|x: ObjectId| #[trigger] lookup(e, x) == if x == id {
        Some(o)
    } else {
        lookup(objs, x)
    } by {
        lemma_id_pos_range(objs, x);
        let q = id_pos(objs, x);
        if q >= 0 {
            assert(is_first_id(e, x, q));
            lemma_id_pos_found(e, x, q);
            if x == id {
                assert(q == p);
            }
        } else {
            lemma_id_pos_absent(objs, x);
            assert(!exists|i: int| is_first_id(e, x, i)) by {
                if exists|i: int| is_first_id(e, x, i) {
                    let i = choose|i: int| is_first_id(e, x, i);
                    assert(e[i].0 == objs[i].0);
                }
            }
        }
    }
}

/// What a chain of references leads to is where it started or one of the
/// objects.
pub proof fn lemma_deref_from_source(objs: Seq<(ObjectId, Obj)>, o: Obj, count: int)
    ensures
        deref_from(objs, o, count) matches Ok(r) ==> r == o || exists|i: int|
            0 <= i < objs.len() && (#[trigger] objs[i]).1 == r,
    decreases DEREF_LIMIT - count,
{
    if let Obj::Reference(id) = o {
        if let Some(next) = lookup(objs, id) {
            if !(count + 1 > DEREF_LIMIT || count < 0) {
                lemma_deref_from_source(objs, next, count + 1);
                lemma_id_pos_range(objs, id);
                let p = id_pos(objs, id);
                if let Ok(r) = deref_from(objs, o, count) {
                    if r == next {
                        assert(objs[p].1 == r);
                    }
                }
            }
        }
    }
}

/// The object a number leads to, references followed, is one of the
/// objects.
pub proof fn lemma_get_object_source(objs: Seq<(ObjectId, Obj)>, id: ObjectId)
    ensures
        get_object(objs, id) matches Ok(r) ==> exists|i: int|
            0 <= i < objs.len() && (#[trigger] objs[i]).1 == r,
{
    if let Some(o) = lookup(objs, id) {
        lemma_deref_from_source(objs, o, 0);
        lemma_id_pos_range(objs, id);
        let p = id_pos(objs, id);
        if let Ok(r) = get_object(objs, id) {
            if r == o {
                assert(objs[p].1 == r);
            }
        }
    }
}

/// Follow references from `o`, `count` of them already followed.
pub open spec fn deref_from(objs: Seq<(ObjectId, Obj)>, o: Obj, count: int) -> Result<Obj, Fault>
    decreases DEREF_LIMIT - count,
{
    match o {
        Obj::Reference(id) => match lookup(objs, id) {
            None => Err(Fault::ObjectNotFound(id)),
            Some(next) => if count + 1 > DEREF_LIMIT || count < 0 {
                Err(Fault::ReferenceLimit)
            } else {
                deref_from(objs, next, count + 1)
            },
        },
        _ => Ok(o),
    }
}

/// The object `o` stands for: itself, or what its chain of references leads to.
pub open spec fn deref(objs: Seq<(ObjectId, Obj)>, o: Obj) -> Result<Obj, Fault> {
    deref_from(objs, o, 0)
}

/// The object numbered `id`, references followed.
pub open spec fn get_object(objs: Seq<(ObjectId, Obj)>, id: ObjectId) -> Result<Obj, Fault> {
    match lookup(objs, id) {
        None => Err(Fault::ObjectNotFound(id)),
        Some(o) => deref(objs, o),
    }
}

/// The dictionary numbered `id`, references followed.
pub open spec fn get_dictionary(objs: Seq<(ObjectId, Obj)>, id: ObjectId) -> Result<DictView, Fault> {
    match get_object(objs, id) {
        Ok(Obj::Dict(d)) => Ok(d),
        Ok(o) => Err(Fault::WrongType("Dictionary"@, type_of(o))),
        Err(e) => Err(e),
    }
}

/// A value resolved for reading: what it stands for, or null when its
/// reference leads nowhere.
pub open spec fn deref_or_null(objs: Seq<(ObjectId, Obj)>, o: Obj) -> Obj {
    match deref(objs, o) {
        Ok(r) => r,
        Err(_) => Obj::Null,
    }
}

/// Whether the trailer's /Encrypt names a dictionary.
pub open spec fn spec_is_encrypted(d: DocView) -> bool {
    match dict_get(d.trailer, crate::names::spec_encrypt_name()) {
        Some(Obj::Reference(id)) => get_dictionary(d.objects, id) is Ok,
        _ => false,
    }
}

impl PdfDocument {
    /// Read a document out of a file held in memory.
    pub fn load_mem(bytes: &[u8]) -> (r: Result<PdfDocument, PdfError>)
        ensures
            match r {
                Ok(d) => crate::bridge::parsed_document(bytes@) == Some(d@) && dicts_unique(d@.objects),
                Err(e) => crate::bridge::parsed_document(bytes@) is None && e@ == Fault::Load,
            },
    {
        match crate::bridge::load_document(bytes) {
            Ok(d) => Ok(d),
            Err(e) => Err(PdfError::Load(e)),
        }
    }

    /// The object numbered `id`, if there is one.
    pub fn lookup(&self, id: ObjectId) -> (r: Option<&PdfObject>)
        ensures
            match r {
                Some(o) => lookup(self@.objects, id) == Some(o@),
                None => lookup(self@.objects, id) is None,
            },
    {
        proof {
            lemma_objects_view(self.objects@);
        }
        let mut i: usize = 0;
        while i < self.objects.len()
            invariant
                i <= self.objects@.len(),
                self@.objects.len() == self.objects@.len(),
                forall|j: int|
                    0 <= j < self.objects@.len() ==> #[trigger] self@.objects[j] == (
                        self.objects@[j].0,
                        self.objects@[j].1@,
                    ),
                forall|j: int| 0 <= j < i ==> self@.objects[j].0 != id,
            decreases self.objects@.len() - i,
        {
            if self.objects[i].0.0 == id.0 && self.objects[i].0.1 == id.1 {
                proof {
                    lemma_id_pos_found(self@.objects, id, i as int);
                }
                return Some(&self.objects[i].1);
            }
            i += 1;
        }
        None
    }

    /// What `obj` stands for, references followed.
    pub fn deref<'a>(&'a self, obj: &'a PdfObject) -> (r: Result<&'a PdfObject, PdfError>)
        ensures
            match r {
                Ok(o) => deref(self@.objects, obj@) == Ok::<Obj, Fault>(o@),
                Err(e) => deref(self@.objects, obj@) == Err::<Obj, Fault>(e@),
            },
    {
        let mut cur: &'a PdfObject = obj;
        let mut count: usize = 0;
        while count <= DEREF_LIMIT
            invariant
                count <= DEREF_LIMIT,
                deref_from(self@.objects, cur@, count as int) == deref(self@.objects, obj@),
            decreases DEREF_LIMIT + 1 - count,
        {
            match cur {
                PdfObject::Reference(id) => {
                    match self.lookup(*id) {
                        None => {
                            return Err(PdfError::ObjectNotFound(*id));
                        },
                        Some(next) => {
                            if count + 1 > DEREF_LIMIT {
                                return Err(PdfError::ReferenceLimit);
                            }
                            cur = next;
                            count = count + 1;
                        },
                    }
                },
                _ => {
                    return Ok(cur);
                },
            }
        }
        // A chain longer than the limit has already been refused above.
        Err(PdfError::ReferenceLimit)
    }

    /// The object numbered `id`, references followed.
    pub fn get_object(&self, id: ObjectId) -> (r: Result<&PdfObject, PdfError>)
        ensures
            match r {
                Ok(o) => get_object(self@.objects, id) == Ok::<Obj, Fault>(o@),
                Err(e) => get_object(self@.objects, id) == Err::<Obj, Fault>(e@),
            },
    {
        match self.lookup(id) {
            None => Err(PdfError::ObjectNotFound(id)),
            Some(o) => self.deref(o),
        }
    }

    /// The dictionary numbered `id`, references followed.
    pub fn get_dictionary(&self, id: ObjectId) -> (r: Result<&PdfDict, PdfError>)
        ensures
            match r {
                Ok(d) => get_dictionary(self@.objects, id) == Ok::<DictView, Fault>(d@),
                Err(e) => get_dictionary(self@.objects, id) == Err::<DictView, Fault>(e@),
            },
    {
        match self.get_object(id) {
            Ok(PdfObject::Dictionary(d)) => Ok(d),
            Ok(o) => Err(PdfError::WrongType { expected: "Dictionary", found: kind_name(o) }),
            Err(e) => Err(e),
        }
    }

    /// Whether the document is encrypted: its trailer's /Encrypt names a
    /// dictionary.
    pub fn is_encrypted(&self) -> (r: bool)
        ensures
            r == spec_is_encrypted(self@),
    {
        match self.trailer.get(crate::names::encrypt_name().as_slice()) {
            Some(PdfObject::Reference(id)) => self.get_dictionary(*id).is_ok(),
            _ => false,
        }
    }
}

} // verus!
