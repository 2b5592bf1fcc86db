//! Registry-facing extension records: the named type classes, type
//! variations and functions a validator loads from extension files and
//! hands to the engine.

use crate::data_type::Simple;
use vstd::prelude::*;

verus! {

/// Information about an extension file.
#[derive(Debug)]
pub struct YamlInfo {
    /// URI of the extension file.
    pub uri: String,
    /// Path to the node that defined the anchor, if any.
    pub anchor_path: Option<String>,
    /// Parse result of the file, if it was resolved.
    pub data: Option<YamlData>,
}

impl YamlInfo {
    /// An unresolved extension file.
    pub fn unknown() -> (r: Self)
        ensures
            r.data is None,
    {
        YamlInfo { uri: String::new(), anchor_path: None, data: None }
    }
}

/// Data for a resolved extension file.  Names are stored in lower case;
/// name resolution is case-insensitive.
#[derive(Debug)]
pub struct YamlData {
    /// Functions defined in this file, by case-folded name.
    pub functions: Vec<(String, Function)>,
    /// Types defined in this file, by case-folded name.
    pub types: Vec<(String, DataType)>,
    /// Type variations defined in this file, by case-folded name.
    pub type_variations: Vec<(String, TypeVariation)>,
}

/// Whether every name in a table appears once.
pub open spec fn names_unique<T>(table: Seq<(String, T)>) -> bool {
    forall|i: int, j: int| 0 <= i < j < table.len() ==> (#[trigger] table[i]).0@ != (
    #[trigger] table[j]).0@
}

impl YamlData {
    /// The tables act as maps: each kind's names are pairwise distinct.
    pub open spec fn wf(self) -> bool {
        &&& names_unique(self.functions@)
        &&& names_unique(self.types@)
        &&& names_unique(self.type_variations@)
    }
}

/// Extension information common to all extension kinds: name and origin.
#[derive(Debug)]
pub struct Common {
    /// The name of the type, type variation, or function.
    pub name: String,
    /// URI of the extension file this extension came from, if any.
    pub uri: Option<String>,
    /// Path to the node that defined the anchor for this extension, if
    /// any.
    pub anchor_path: Option<String>,
}

impl Common {
    /// An anonymous extension record.
    pub fn unknown() -> (r: Self)
        ensures
            r.uri is None,
    {
        Common { name: String::new(), uri: None, anchor_path: None }
    }
}

/// Named reference to a particular extension definition.
#[derive(Debug)]
pub struct Reference<T> {
    /// Information common to all extension kinds.
    pub common: Common,
    /// The definition, when the reference was resolved.
    pub definition: Option<T>,
}

/// A user-defined base data type: its underlying structure.
#[derive(Debug)]
pub struct DataType {
    /// The named simple-type fields of the structure.
    pub structure: Vec<(String, Simple)>,
}

/// A type variation extension.
#[derive(Debug)]
pub struct TypeVariation {
    /// Function behavior for this variation.
    pub behavior: FunctionBehavior,
}

/// Whether a type variation inherits the functions of its base type or
/// declares its own.
#[derive(Clone, Copy, Debug, PartialEq, Eq, Structural)]
pub enum FunctionBehavior {
    /// Functions of the base type apply.
    Inherits,
    /// The variation declares its own functions.
    Separate,
}

impl FunctionBehavior {
    /// The default behavior: functions are inherited.
    pub fn base() -> (r: Self)
        ensures
            r == FunctionBehavior::Inherits,
    {
        FunctionBehavior::Inherits
    }
}

/// A function extension: the signature the engine solves against.
#[derive(Debug)]
pub struct Function {
    /// Declared number of parameters.
    pub arity: usize,
}

} // verus!
