use vstd::prelude::*;
use crate::agent::Philosopher;

verus! {

/// One line of the input configuration: a philosopher's name and the two
/// forks it needs.
pub struct Descriptor {
    pub name: String,
    pub resource_a: usize,
    pub resource_b: usize,
}

impl Descriptor {
    pub fn new(name: &str, resource_a: usize, resource_b: usize) -> (r: Descriptor)
        ensures
            r.name@ == name@,
            r.resource_a == resource_a,
            r.resource_b == resource_b,
    {
        Descriptor { name: name.to_string(), resource_a, resource_b }
    }

    pub open spec fn in_range(&self, m: usize) -> bool {
        self.resource_a < m && self.resource_b < m
    }
}

/// A descriptor names a fork outside `0..m`. `agent` is the position of the
/// first such descriptor, `resource` the first index of it that is out of range.
#[derive(Clone, Copy, Debug, PartialEq, Eq, Structural)]
pub struct ConfigurationError {
    pub agent: usize,
    pub resource: usize,
}

/// The classic table as (name, first fork named, second fork named).
pub open spec fn classic_table() -> Seq<(Seq<char>, usize, usize)> {
    seq![
        ("Hans Gadamer"@, 0, 1),
        ("Friedrich Engels"@, 1, 2),
        ("Thomas Piketty"@, 3, 0),
        ("Socrates"@, 1, 2),
        ("Plato"@, 2, 3),
        ("Aristotle"@, 3, 0),
        ("Pythagoras"@, 0, 1),
        ("Heraclitus"@, 1, 2),
        ("Democritus"@, 2, 3),
        ("Diogenes"@, 3, 0),
        ("Seneca"@, 1, 2),
        ("Thales of Miletus"@, 2, 3),
        ("Zeno of Elea"@, 3, 0),
        ("Parmenides"@, 0, 1),
        ("Anaxagoras"@, 1, 2),
        ("Protagoras"@, 2, 3),
        ("Hippocrates"@, 3, 0),
        ("Hipparchus"@, 0, 1),
        ("Ptolemy"@, 1, 2),
        ("Archimedes"@, 2, 3),
        ("Euclid"@, 3, 0),
        ("Aristarchus"@, 0, 1),
        ("Eratosthenes"@, 1, 2),
        ("Hipparchus"@, 2, 3),
        ("Ptolemy"@, 3, 0),
        ("Heraclitus"@, 0, 1),
        ("Democritus"@, 1, 2),
        ("Diogenes"@, 2, 3),
        ("Epicuro"@, 3, 0),
    ]
}

/// The classic table: the philosophers and the two forks each one needs, out
/// of four forks.
pub fn init_philosophers() -> (r: Vec<Descriptor>)
    ensures
        r@.map_values(|d: Descriptor| (d.name@, d.resource_a, d.resource_b)) == classic_table(),
        r@.len() == 29,
        forall|i: int| 0 <= i < r@.len() ==> (#[trigger] r@[i]).in_range(4),
        forall|i: int| 0 <= i < r@.len() ==> (#[trigger] r@[i]).resource_a != r@[i].resource_b,
{
    let mut r: Vec<Descriptor> = Vec::new();
    r.push(Descriptor::new("Hans Gadamer", 0, 1));
    r.push(Descriptor::new("Friedrich Engels", 1, 2));
    r.push(Descriptor::new("Thomas Piketty", 3, 0));
    r.push(Descriptor::new("Socrates", 1, 2));
    r.push(Descriptor::new("Plato", 2, 3));
    r.push(Descriptor::new("Aristotle", 3, 0));
    r.push(Descriptor::new("Pythagoras", 0, 1));
    r.push(Descriptor::new("Heraclitus", 1, 2));
    r.push(Descriptor::new("Democritus", 2, 3));
    r.push(Descriptor::new("Diogenes", 3, 0));
    r.push(Descriptor::new("Seneca", 1, 2));
    r.push(Descriptor::new("Thales of Miletus", 2, 3));
    r.push(Descriptor::new("Zeno of Elea", 3, 0));
    r.push(Descriptor::new("Parmenides", 0, 1));
    r.push(Descriptor::new("Anaxagoras", 1, 2));
    r.push(Descriptor::new("Protagoras", 2, 3));
    r.push(Descriptor::new("Hippocrates", 3, 0));
    r.push(Descriptor::new("Hipparchus", 0, 1));
    r.push(Descriptor::new("Ptolemy", 1, 2));
    r.push(Descriptor::new("Archimedes", 2, 3));
    r.push(Descriptor::new("Euclid", 3, 0));
    r.push(Descriptor::new("Aristarchus", 0, 1));
    r.push(Descriptor::new("Eratosthenes", 1, 2));
    r.push(Descriptor::new("Hipparchus", 2, 3));
    r.push(Descriptor::new("Ptolemy", 3, 0));
    r.push(Descriptor::new("Heraclitus", 0, 1));
    r.push(Descriptor::new("Democritus", 1, 2));
    r.push(Descriptor::new("Diogenes", 2, 3));
    r.push(Descriptor::new("Epicuro", 3, 0));
    proof {
        assert(r@.map_values(|d: Descriptor| (d.name@, d.resource_a, d.resource_b)) =~= classic_table());
    }
    r
}

/// Checks every descriptor against a pool of `m` forks and, when all are in
/// range, makes the philosophers, philosopher `i` from descriptor `i` with id
/// `i`. Otherwise nothing is made and the first descriptor out of range is
/// reported.
pub fn validate(descriptors: &Vec<Descriptor>, m: usize) -> (r: Result<Vec<Philosopher>, ConfigurationError>)
    requires
        descriptors@.len() <= u32::MAX,
    ensures
        r is Err <==> exists|i: int| 0 <= i < descriptors@.len() && !(#[trigger] descriptors@[i]).in_range(m),
        r matches Err(e) ==> {
            &&& 0 <= e.agent < descriptors@.len()
            &&& !descriptors@[e.agent as int].in_range(m)
            &&& forall|j: int| 0 <= j < e.agent ==> (#[trigger] descriptors@[j]).in_range(m)
            &&& e.resource == if descriptors@[e.agent as int].resource_a >= m {
                descriptors@[e.agent as int].resource_a
            } else {
                descriptors@[e.agent as int].resource_b
            }
        },
        r matches Ok(ps) ==> {
            &&& ps@.len() == descriptors@.len()
            &&& forall|i: int| 0 <= i < ps@.len() ==> {
                &&& (#[trigger] ps@[i]).id == i
                &&& ps@[i].name@ == descriptors@[i].name@
                &&& ps@[i].left_fork == descriptors@[i].resource_a
                &&& ps@[i].right_fork == descriptors@[i].resource_b
            }
        },
{
    let n = descriptors.len();
    let mut i: usize = 0;
    while i < n
        invariant
            n == descriptors@.len(),
            i <= n,
            forall|j: int| 0 <= j < i ==> (#[trigger] descriptors@[j]).in_range(m),
        decreases n - i,
    {
        let d = &descriptors[i];
        if d.resource_a >= m {
            return Err(ConfigurationError { agent: i, resource: d.resource_a });
        }
        if d.resource_b >= m {
            return Err(ConfigurationError { agent: i, resource: d.resource_b });
        }
        i = i + 1;
    }
    let mut ps: Vec<Philosopher> = Vec::new();
    let mut k: usize = 0;
    while k < n
        invariant
            n == descriptors@.len(),
            n <= u32::MAX,
            k <= n,
            ps@.len() == k,
            forall|j: int| 0 <= j < k ==> {
                &&& (#[trigger] ps@[j]).id == j
                &&& ps@[j].name@ == descriptors@[j].name@
                &&& ps@[j].left_fork == descriptors@[j].resource_a
                &&& ps@[j].right_fork == descriptors@[j].resource_b
            },
        decreases n - k,
    {
        let d = &descriptors[k];
        ps.push(Philosopher::new(k as u32, d.name.as_str(), d.resource_a, d.resource_b));
        k = k + 1;
    }
    Ok(ps)
}

} // verus!
