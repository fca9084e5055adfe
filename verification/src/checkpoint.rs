//! The tensors of a checkpoint, and lookups in it.
use crate::error::Error;
use crate::path::Path;
use crate::shape::Shape;
use crate::tensor::{make, node, Op, TensorResult};
use vstd::prelude::*;

verus! {

/// The file format of a checkpoint.
#[derive(Clone, Copy, PartialEq, Eq, Structural, Debug)]
pub enum Format {
    /// A lookup compares the stored shape with the one asked for.
    Safetensors,
    /// A lookup takes the stored shape as it is.
    Gguf,
}

/// A tensor of a checkpoint.
#[derive(Debug)]
pub struct Entry {
    pub name: String,
    pub shape: Shape,
}

/// The listing of a checkpoint.
#[derive(Debug)]
pub struct Checkpoint {
    pub format: Format,
    pub entries: Vec<Entry>,
}

/// The index of the first entry from `i` on that has the name `key`.
pub open spec fn find_from(entries: Seq<Entry>, key: Seq<char>, i: int) -> Option<usize>
    decreases entries.len() - i,
{
    if i >= entries.len() {
        None
    } else if entries[i].name@ == key {
        Some(i as usize)
    } else {
        find_from(entries, key, i + 1)
    }
}

/// A lookup finds an entry exactly where one has the name, and the entry that it finds has it.
pub proof fn lookup_finds_the_name(entries: Seq<Entry>, key: Seq<char>, from: int)
    requires
        0 <= from <= entries.len() <= usize::MAX,
    ensures
        find_from(entries, key, from) is Some <==> exists|i: int|
            from <= i < entries.len() && (#[trigger] entries[i]).name@ == key,
        find_from(entries, key, from) matches Some(i) ==> from <= i < entries.len()
            && entries[i as int].name@ == key,
    decreases entries.len() - from,
{
    if from < entries.len() {
        if entries[from].name@ != key {
            lookup_finds_the_name(entries, key, from + 1);
        }
    }
}

impl Checkpoint {
    fn find(&self, key: &String) -> (r: Option<usize>)
        ensures
            r == find_from(self.entries@, key@, 0),
            r matches Some(i) ==> i < self.entries.len(),
    {
        let mut i: usize = 0;
        while i < self.entries.len()
            invariant
                i <= self.entries.len(),
                find_from(self.entries@, key@, 0) == find_from(self.entries@, key@, i as int),
            decreases self.entries.len() - i,
        {
            if self.entries[i].name == *key {
                return Some(i);
            }
            i += 1;
        }
        None
    }
}

/// A checkpoint together with the prefix of the names that are looked up in it.
pub struct Weights<'a> {
    pub checkpoint: &'a Checkpoint,
    pub path: Path,
}

/// The tensor `name` under `vb`, of shape `shape`.
pub open spec fn weight_of(vb: Weights, name: &'static str, shape: Shape) -> TensorResult {
    match vb.lookup(name) {
        None => Err(Error::MissingTensor { path: vb.path, name }),
        Some(i) => {
            let stored = vb.checkpoint.entries[i as int].shape;
            if vb.checkpoint.format == Format::Safetensors && stored != shape {
                Err(Error::WeightShape { path: vb.path, name, shape: stored })
            } else {
                node(stored, Op::Weight(i))
            }
        },
    }
}

impl<'a> Weights<'a> {
    pub open spec fn at(self, name: &'static str) -> Weights<'a> {
        Weights { checkpoint: self.checkpoint, path: self.path.at(name) }
    }

    pub open spec fn nth(self, index: int) -> Weights<'a> {
        Weights { checkpoint: self.checkpoint, path: self.path.nth(index) }
    }

    /// The index of the entry that `name` under this prefix names.
    pub open spec fn lookup(self, name: &'static str) -> Option<usize> {
        find_from(self.checkpoint.entries@, self.path.full_name(name@), 0)
    }

    pub open spec fn has(self, name: &'static str) -> bool {
        self.lookup(name) is Some
    }

    /// The whole checkpoint.
    pub fn root(checkpoint: &'a Checkpoint) -> (r: Weights<'a>)
        ensures
            r == (Weights { checkpoint, path: Path::Root }),
    {
        Weights { checkpoint, path: Path::Root }
    }

    /// Descends into the segment `name`.
    pub fn pp(&self, name: &'static str) -> (r: Weights<'a>)
        ensures
            r == self.at(name),
    {
        Weights { checkpoint: self.checkpoint, path: self.path.pp(name) }
    }

    /// Descends into the segment `index`.
    pub fn pi(&self, index: usize) -> (r: Weights<'a>)
        ensures
            r == self.nth(index as int),
    {
        Weights { checkpoint: self.checkpoint, path: self.path.pi(index) }
    }

    /// Whether the checkpoint has a tensor `name` under this prefix.
    pub fn contains(&self, name: &'static str) -> (r: bool)
        ensures
            r == self.has(name),
    {
        let key = self.path.tensor_name(name);
        self.checkpoint.find(&key).is_some()
    }

    /// The tensor `name` under this prefix.
    pub fn tensor(&self, name: &'static str, shape: Shape) -> (r: TensorResult)
        ensures
            r == weight_of(*self, name, shape),
    {
        let key = self.path.tensor_name(name);
        match self.checkpoint.find(&key) {
            None => Err(Error::MissingTensor { path: self.path.clone(), name }),
            Some(i) => {
                let stored = self.checkpoint.entries[i].shape.clone();
                if self.checkpoint.format == Format::Safetensors && stored != shape {
                    Err(Error::WeightShape { path: self.path.clone(), name, shape: stored })
                } else {
                    make(stored, Op::Weight(i))
                }
            },
        }
    }
}

} // verus!
