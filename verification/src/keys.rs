//! The names and keys that the merge reads and writes, as bytes.
use vstd::prelude::*;
use crate::model::Role;
use crate::model::key_count;
use crate::model::key_kids;
use crate::model::key_outlines;
use crate::model::key_pages;
use crate::model::key_parent;
use crate::model::key_root;
use crate::model::name_catalog;
use crate::model::name_outline;
use crate::model::name_outlines;
use crate::model::name_page;
use crate::model::name_pages;
use crate::model::role_of_name;

verus! {

/// Whether two byte strings are the same.
pub fn same_bytes(a: &Vec<u8>, b: &Vec<u8>) -> (same: bool)
    ensures
        same == (a@ == b@),
{
    if a.len() != b.len() {
        return false;
    }
    let mut i: usize = 0;
    while i < a.len()
        invariant
            a.len() == b.len(),
            i <= a.len(),
            forall|j: int| 0 <= j < i ==> a@[j] == b@[j],
        decreases a.len() - i,
    {
        if a[i] != b[i] {
            return false;
        }
        i += 1;
    }
    assert(a@ =~= b@);
    true
}

/// `Catalog`
pub fn catalog_name() -> (name: Vec<u8>)
    ensures
        name@ == name_catalog(),
{
    let name = vec![0x43u8, 0x61u8, 0x74u8, 0x61u8, 0x6cu8, 0x6fu8, 0x67u8];
    assert(name@ =~= name_catalog());
    name
}

/// `Pages`, the type of a page tree node and the key under which a catalog names it.
pub fn pages_name() -> (name: Vec<u8>)
    ensures
        name@ == name_pages(),
        name@ == key_pages(),
{
    let name = vec![0x50u8, 0x61u8, 0x67u8, 0x65u8, 0x73u8];
    assert(name@ =~= name_pages());
    name
}

/// `Page`
pub fn page_name() -> (name: Vec<u8>)
    ensures
        name@ == name_page(),
{
    let name = vec![0x50u8, 0x61u8, 0x67u8, 0x65u8];
    assert(name@ =~= name_page());
    name
}

/// `Outlines`, the type of an outline root and the key under which a catalog names it.
pub fn outlines_name() -> (name: Vec<u8>)
    ensures
        name@ == name_outlines(),
        name@ == key_outlines(),
{
    let name = vec![0x4fu8, 0x75u8, 0x74u8, 0x6cu8, 0x69u8, 0x6eu8, 0x65u8, 0x73u8];
    assert(name@ =~= name_outlines());
    name
}

/// `Outline`
pub fn outline_name() -> (name: Vec<u8>)
    ensures
        name@ == name_outline(),
{
    let name = vec![0x4fu8, 0x75u8, 0x74u8, 0x6cu8, 0x69u8, 0x6eu8, 0x65u8];
    assert(name@ =~= name_outline());
    name
}

/// `Parent`
pub fn parent_key() -> (key: Vec<u8>)
    ensures
        key@ == key_parent(),
{
    let key = vec![0x50u8, 0x61u8, 0x72u8, 0x65u8, 0x6eu8, 0x74u8];
    assert(key@ =~= key_parent());
    key
}

/// `Count`
pub fn count_key() -> (key: Vec<u8>)
    ensures
        key@ == key_count(),
{
    let key = vec![0x43u8, 0x6fu8, 0x75u8, 0x6eu8, 0x74u8];
    assert(key@ =~= key_count());
    key
}

/// `Kids`
pub fn kids_key() -> (key: Vec<u8>)
    ensures
        key@ == key_kids(),
{
    let key = vec![0x4bu8, 0x69u8, 0x64u8, 0x73u8];
    assert(key@ =~= key_kids());
    key
}

/// `Root`
pub fn root_key() -> (key: Vec<u8>)
    ensures
        key@ == key_root(),
{
    let key = vec![0x52u8, 0x6fu8, 0x6fu8, 0x74u8];
    assert(key@ =~= key_root());
    key
}

/// The view of an optional byte string.
pub open spec fn name_view(name: Option<Vec<u8>>) -> Option<Seq<u8>> {
    match name {
        Some(n) => Some(n@),
        None => None,
    }
}

/// The structural role that a type name stands for: `Catalog`, `Pages`, `Page`,
/// `Outlines` and `Outline` have one, every other name and no name are `Other`.
pub fn role_for(name: &Option<Vec<u8>>) -> (r: Role)
    ensures
        r == role_of_name(name_view(*name)),
{
    match name {
        Some(n) => {
            if same_bytes(n, &catalog_name()) {
                Role::Catalog
            } else if same_bytes(n, &pages_name()) {
                Role::Pages
            } else if same_bytes(n, &page_name()) {
                Role::Page
            } else if same_bytes(n, &outlines_name()) || same_bytes(n, &outline_name()) {
                Role::Outline
            } else {
                Role::Other
            }
        },
        None => Role::Other,
    }
}

} // verus!
