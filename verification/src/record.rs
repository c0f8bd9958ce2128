//! The stored record type and its mathematical view.

use vstd::prelude::*;

verus! {

/// One stored record: a unique identifier, a name, an age and a class name.
/// The identifier never changes after creation; the other fields may be
/// overwritten in place.
#[derive(Debug)]
pub struct Student {
    pub id: u32,
    pub name: String,
    pub age: u8,
    pub class_name: String,
}

/// The mathematical view of a record: the identifier and age as numbers, the
/// textual fields as character sequences.
pub ghost struct StudentV {
    pub id: u32,
    pub name: Seq<char>,
    pub age: u8,
    pub class_name: Seq<char>,
}

impl View for Student {
    type V = StudentV;

    open spec fn view(&self) -> StudentV {
        StudentV {
            id: self.id,
            name: self.name@,
            age: self.age,
            class_name: self.class_name@,
        }
    }
}

impl DeepView for Student {
    type V = StudentV;

    open spec fn deep_view(&self) -> StudentV {
        self.view()
    }
}

impl Clone for Student {
    fn clone(&self) -> (r: Self)
        ensures
            r == *self,
    {
        Student {
            id: self.id,
            name: self.name.clone(),
            age: self.age,
            class_name: self.class_name.clone(),
        }
    }
}

} // verus!
