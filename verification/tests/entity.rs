use recommendation_system::entity::{
    create_partial_users, found_or_missing, not_found, to_level_filter, Book, Entity, Movie,
    NewBook, NewMovie, NewUser, SearchBy, User, Verbosity,
};
use recommendation_system::error::{ErrorKind, NotFoundById, NotFoundByName};

fn pairs(data: Vec<(String, String)>) -> Vec<(String, String)> {
    data
}

#[test]
fn a_user_shows_its_location_and_age() {
    let user = User { id: 2, location: "stockton, california, usa".to_string(), age: Some(18) };
    assert_eq!(user.get_id(), 2);
    assert_eq!(
        pairs(user.get_data()),
        vec![
            ("location".to_string(), "stockton, california, usa".to_string()),
            ("age".to_string(), "18".to_string()),
        ]
    );
    let ageless = User { id: 3, location: "porto".to_string(), age: None };
    assert_eq!(
        pairs(ageless.get_data()),
        vec![("location".to_string(), "porto".to_string())]
    );
    let negative = User { id: 4, location: String::new(), age: Some(-7) };
    assert_eq!(negative.get_data()[1].1, "-7");
}

#[test]
fn a_movie_shows_its_name_and_a_book_nothing() {
    let movie = Movie { id: 7, name: "Alien".to_string() };
    assert_eq!(movie.get_id(), 7);
    assert_eq!(
        pairs(movie.get_data()),
        vec![("name".to_string(), "Alien".to_string())]
    );
    let blank = Movie::default();
    assert_eq!((blank.id, blank.name.as_str()), (0, ""));
    let book = Book { id: 11 };
    assert_eq!(book.get_id(), 11);
    assert!(book.get_data().is_empty());
    let fresh = NewBook { id: 12 };
    assert_eq!(fresh.id, 12);
    let film = NewMovie { name: "Heat" };
    assert_eq!(film.name, "Heat");
    let person = NewUser { id: 1, location: "here", age: None };
    assert_eq!((person.id, person.location, person.age), (1, "here", None));
}

#[test]
fn partial_users_carry_the_id_alone() {
    let users = create_partial_users(&vec![5, 3, 5]);
    let flat: Vec<(i32, &str, Option<i16>)> = users
        .iter()
        .map(|u| (u.id, u.location.as_str(), u.age))
        .collect();
    assert_eq!(flat, vec![(5, "", None), (3, "", None), (5, "", None)]);
    assert!(create_partial_users(&Vec::new()).is_empty());
    assert_eq!(User::partial(9).get_id(), 9);
}

#[test]
fn a_lookup_without_a_match_fails_by_its_kind() {
    assert!(matches!(
        not_found(SearchBy::Id("2".to_string())),
        ErrorKind::NotFoundById(id) if id == "2"
    ));
    assert!(matches!(
        not_found(SearchBy::Name("Jane Doe".to_string())),
        ErrorKind::NotFoundByName(name) if name == "Jane Doe"
    ));
    assert!(matches!(
        not_found(SearchBy::Custom("year".to_string(), "1999".to_string())),
        ErrorKind::NotFoundByCustom(k, v) if k == "year" && v == "1999"
    ));
    let none: Vec<Book> = Vec::new();
    assert!(matches!(
        found_or_missing(none, SearchBy::Id("4".to_string())),
        Err(ErrorKind::NotFoundById(id)) if id == "4"
    ));
    let some = found_or_missing(vec![Book { id: 4 }], SearchBy::Id("4".to_string())).unwrap();
    assert_eq!(some.len(), 1);
    assert_eq!(some[0].get_id(), 4);
    assert!(matches!(
        NotFoundByName("x".to_string()).into_kind(),
        ErrorKind::NotFoundByName(name) if name == "x"
    ));
    assert_eq!(NotFoundById(3).0, 3);
}

#[test]
fn verbosity_levels() {
    assert_eq!(to_level_filter(0), Verbosity::Error);
    assert_eq!(to_level_filter(1), Verbosity::Warn);
    assert_eq!(to_level_filter(2), Verbosity::Info);
    assert_eq!(to_level_filter(3), Verbosity::Debug);
    assert_eq!(to_level_filter(usize::MAX), Verbosity::Debug);
}
