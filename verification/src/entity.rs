//! Entities of a store, the ways to look them up, and the models of the
//! stores that come with the engine.
use crate::error::ErrorKind;
use vstd::prelude::*;
use vstd::string::to_string_from_display_ensures;

verus! {

/// Something a store holds under an id.
pub trait Entity {
    /// The type of the id.
    type Id;

    /// The id.
    fn get_id(&self) -> Self::Id;

    /// The entity is bare: it has no descriptive attributes. An entity
    /// that does not say so is not taken to be bare.
    open spec fn bare(&self) -> bool {
        false
    }

    /// The descriptive attributes as pairs of name and value; none for a
    /// bare entity, and none by default.
    fn get_data(&self) -> (r: Vec<(String, String)>)
        ensures
            self.bare() ==> r@.len() == 0,
    {
        Vec::new()
    }
}

/// How an entity is looked up.
#[derive(Debug, Clone)]
pub enum SearchBy {
    /// By its id, as text.
    Id(String),
    /// By its name.
    Name(String),
    /// By the value of a named field.
    Custom(String, String),
}

/// The failure that a lookup by `by` ends in when nothing matches.
pub open spec fn miss_of(by: SearchBy) -> ErrorKind {
    match by {
        SearchBy::Id(id) => ErrorKind::NotFoundById(id),
        SearchBy::Name(name) => ErrorKind::NotFoundByName(name),
        SearchBy::Custom(key, value) => ErrorKind::NotFoundByCustom(key, value),
    }
}

/// The failure that a lookup by `by` ends in when nothing matches.
pub fn not_found(by: SearchBy) -> (e: ErrorKind)
    ensures
        e == miss_of(by),
{
    match by {
        SearchBy::Id(id) => ErrorKind::NotFoundById(id),
        SearchBy::Name(name) => ErrorKind::NotFoundByName(name),
        SearchBy::Custom(key, value) => ErrorKind::NotFoundByCustom(key, value),
    }
}

/// What a lookup by `by` returns for the matches `found`: the matches, or
/// the failure of `by` where there is none.
pub fn found_or_missing<T>(found: Vec<T>, by: SearchBy) -> (r: Result<Vec<T>, ErrorKind>)
    ensures
        r == if found@.len() == 0 {
            Err::<Vec<T>, ErrorKind>(miss_of(by))
        } else {
            Ok::<Vec<T>, ErrorKind>(found)
        },
{
    if found.len() == 0 {
        Err(not_found(by))
    } else {
        Ok(found)
    }
}

/// How much is logged.
#[derive(Debug, Clone, Copy, PartialEq, Eq, Structural)]
pub enum Verbosity {
    Error,
    Warn,
    Info,
    Debug,
}

/// The verbosity that a configured level stands for: errors only at 0,
/// warnings from 1, notes from 2, everything above.
pub fn to_level_filter(level: usize) -> (v: Verbosity)
    ensures
        v == if level == 0 {
            Verbosity::Error
        } else if level == 1 {
            Verbosity::Warn
        } else if level == 2 {
            Verbosity::Info
        } else {
            Verbosity::Debug
        },
{
    match level {
        0 => Verbosity::Error,
        1 => Verbosity::Warn,
        2 => Verbosity::Info,
        _ => Verbosity::Debug,
    }
}

/// A user of the books store.
#[derive(Debug, Clone)]
pub struct User {
    pub id: i32,
    pub location: String,
    pub age: Option<i16>,
}

/// A user of the books store, to be inserted.
#[derive(Debug, Clone)]
pub struct NewUser<'a> {
    pub id: i32,
    pub location: &'a str,
    pub age: Option<i16>,
}

impl User {
    /// A user known by its id alone.
    pub fn partial(id: i32) -> (u: User)
        ensures
            u.id == id,
            u.location@ == Seq::<char>::empty(),
            u.age.is_none(),
    {
        User { id, location: String::new(), age: None }
    }
}

/// A partial user for each id, in the order of the ids.
pub fn create_partial_users(user_ids: &Vec<i32>) -> (r: Vec<User>)
    ensures
        r@.len() == user_ids@.len(),
        forall|i: int|
            0 <= i < r@.len() ==> (#[trigger] r@[i]).id == user_ids@[i] && r@[i].location@
                == Seq::<char>::empty() && r@[i].age.is_none(),
{
    let mut r: Vec<User> = Vec::new();
    let mut i: usize = 0;
    while i < user_ids.len()
        invariant
            i <= user_ids@.len(),
            r@.len() == i,
            forall|j: int|
                0 <= j < i ==> (#[trigger] r@[j]).id == user_ids@[j] && r@[j].location@
                    == Seq::<char>::empty() && r@[j].age.is_none(),
        decreases user_ids@.len() - i,
    {
        r.push(User::partial(user_ids[i]));
        i = i + 1;
    }
    r
}

impl Entity for User {
    type Id = i32;

    fn get_id(&self) -> (id: i32)
        ensures
            id == self.id,
    {
        self.id
    }

    /// The location, then the age where it is known.
    fn get_data(&self) -> (r: Vec<(String, String)>)
        ensures
            r@.len() == if self.age.is_some() {
                2int
            } else {
                1int
            },
            r@[0].0@ == "location"@,
            r@[0].1@ == self.location@,
            self.age matches Some(age) ==> r@[1].0@ == "age"@ && to_string_from_display_ensures::<
                i16,
            >(&age, r@[1].1),
    {
        let mut r: Vec<(String, String)> = Vec::new();
        r.push(("location".to_owned(), self.location.clone()));
        match self.age {
            Some(age) => {
                r.push(("age".to_owned(), age.to_string()));
            },
            None => {},
        }
        r
    }
}

/// A book of the shelves store.
#[derive(Debug, Clone)]
pub struct Book {
    pub id: i32,
}

/// A book of the shelves store, to be inserted.
#[derive(Debug, Clone)]
pub struct NewBook {
    pub id: i32,
}

impl Entity for Book {
    type Id = i32;

    open spec fn bare(&self) -> bool {
        true
    }

    fn get_id(&self) -> (id: i32)
        ensures
            id == self.id,
    {
        self.id
    }
}

/// A movie of the simple-movie store.
#[derive(Debug, Clone)]
pub struct Movie {
    pub id: i32,
    pub name: String,
}

/// A movie of the simple-movie store, to be inserted.
#[derive(Debug, Clone)]
pub struct NewMovie<'a> {
    pub name: &'a str,
}

impl Default for Movie {
    fn default() -> (m: Movie)
        ensures
            m.id == 0,
            m.name@ == Seq::<char>::empty(),
    {
        Movie { id: 0, name: String::new() }
    }
}

impl Entity for Movie {
    type Id = i32;

    fn get_id(&self) -> (id: i32)
        ensures
            id == self.id,
    {
        self.id
    }

    /// The name.
    fn get_data(&self) -> (r: Vec<(String, String)>)
        ensures
            r@.len() == 1,
            r@[0].0@ == "name"@,
            r@[0].1@ == self.name@,
    {
        let mut r: Vec<(String, String)> = Vec::new();
        r.push(("name".to_owned(), self.name.clone()));
        r
    }
}

} // verus!
