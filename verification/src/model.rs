//! The indexed record.

use vstd::prelude::*;

verus! {

/// A product record: a unique identifier, a required name and optional
/// secondary text fields.
#[derive(Debug)]
pub struct Product {
    pub id: u32,
    pub name: String,
    pub brand: Option<String>,
    pub category: Option<String>,
    pub description: Option<String>,
}

/// The mathematical value of a [`Product`]: its identifier and the
/// character sequences of its fields.
pub struct ProductView {
    pub id: u32,
    pub name: Seq<char>,
    pub brand: Option<Seq<char>>,
    pub category: Option<Seq<char>>,
    pub description: Option<Seq<char>>,
}

/// The characters of an optional owned string.
pub open spec fn field_view(field: Option<String>) -> Option<Seq<char>> {
    match field {
        Some(s) => Some(s@),
        None => None,
    }
}

/// The characters of an optional borrowed string.
pub open spec fn text_view(text: Option<&str>) -> Option<Seq<char>> {
    match text {
        Some(s) => Some(s@),
        None => None,
    }
}

impl View for Product {
    type V = ProductView;

    open spec fn view(&self) -> ProductView {
        ProductView {
            id: self.id,
            name: self.name@,
            brand: field_view(self.brand),
            category: field_view(self.category),
            description: field_view(self.description),
        }
    }
}

/// Copies an optional borrowed string into an owned one.
fn owned_field(text: Option<&str>) -> (field: Option<String>)
    ensures
        field_view(field) == text_view(text),
{
    match text {
        Some(s) => Some(s.to_owned()),
        None => None,
    }
}

/// Duplicates an optional owned string.
fn copied_field(field: &Option<String>) -> (copy: Option<String>)
    ensures
        copy == *field,
{
    match field {
        Some(s) => Some(s.clone()),
        None => None,
    }
}

impl Product {
    /// Builds a record from borrowed text.
    pub fn new(
        id: u32,
        name: &str,
        brand: Option<&str>,
        category: Option<&str>,
        description: Option<&str>,
    ) -> (product: Product)
        ensures
            product@ == (ProductView {
                id,
                name: name@,
                brand: text_view(brand),
                category: text_view(category),
                description: text_view(description),
            }),
    {
        Product {
            id,
            name: name.to_owned(),
            brand: owned_field(brand),
            category: owned_field(category),
            description: owned_field(description),
        }
    }
}

impl Clone for Product {
    fn clone(&self) -> (copy: Product)
        ensures
            copy == *self,
    {
        Product {
            id: self.id,
            name: self.name.clone(),
            brand: copied_field(&self.brand),
            category: copied_field(&self.category),
            description: copied_field(&self.description),
        }
    }
}

} // verus!
