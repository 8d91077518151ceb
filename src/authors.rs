use vstd::prelude::*;

verus! {

/// An author, known by name.
pub struct Author {
    pub name: String,
}

impl Author {
    pub fn new(name: &str) -> (r: Self)
        ensures
            r.name@ == name@,
    {
        Author { name: name.to_string() }
    }
}

/// The authors of the reading graph, in node order.
pub fn get_authors() -> (r: Vec<Author>)
    ensures
        r@.len() == 6,
        r@[0].name@ == "Boccaccio"@,
        r@[1].name@ == "Chaucer"@,
        r@[2].name@ == "Dante"@,
        r@[3].name@ == "Homer"@,
        r@[4].name@ == "Virgil"@,
        r@[5].name@ == "Shakespeare"@,
{
    let mut r: Vec<Author> = Vec::new();
    r.push(Author::new("Boccaccio"));
    r.push(Author::new("Chaucer"));
    r.push(Author::new("Dante"));
    r.push(Author::new("Homer"));
    r.push(Author::new("Virgil"));
    r.push(Author::new("Shakespeare"));
    r
}

} // verus!
