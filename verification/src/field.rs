use vstd::prelude::*;

verus! {

/// One segment of a filter ([`crate::parse_filter`] returns `Vec<Field>`).
///
/// For the filter `'.foo{"bar"}.baz'` there are two segments:
///
/// * the name "foo" and the label "bar"
/// * the name "baz"
#[derive(Clone, Debug, PartialEq)]
pub struct Field {
    /// an attribute, block, or object name
    pub name: String,
    /// block labels or object keys
    pub labels: Vec<String>,
    /// a list index
    pub index: Option<usize>,
}

/// The mathematical value of a [`Field`]: its name and labels as character
/// sequences and its index as an unbounded integer.
pub struct SpecField {
    pub name: Seq<char>,
    pub labels: Seq<Seq<char>>,
    pub index: Option<int>,
}

/// The views of a sequence of owned strings.
pub open spec fn labels_view(ls: Seq<String>) -> Seq<Seq<char>> {
    ls.map_values(|l: String| l@)
}

/// A machine index as an unbounded integer.
pub open spec fn index_view(i: Option<usize>) -> Option<int> {
    match i {
        Some(v) => Some(v as int),
        None => None,
    }
}

impl View for Field {
    type V = SpecField;

    open spec fn view(&self) -> SpecField {
        SpecField { name: self.name@, labels: labels_view(self.labels@), index: index_view(self.index) }
    }
}

/// The views of a sequence of fields.
pub open spec fn fields_view(fs: Seq<Field>) -> Seq<SpecField> {
    fs.map_values(|f: Field| f@)
}

impl Field {
    /// A field with the given name, no labels and no index.
    pub fn new(name: &str) -> (r: Self)
        ensures
            r@.name == name@,
            r@.labels == Seq::<Seq<char>>::empty(),
            r@.index is None,
    {
        let f = Field { name: name.to_owned(), labels: Vec::new(), index: None };
        proof {
            assert(f@.labels =~= Seq::<Seq<char>>::empty());
        }
        f
    }

    /// A field with the given name and labels, in the order given, and no index.
    pub fn labeled(name: &str, labels: &[&str]) -> (r: Self)
        ensures
            r@.name == name@,
            r@.labels.len() == labels@.len(),
            forall|i: int| 0 <= i < labels@.len() ==> r@.labels[i] == labels@[i]@,
            r@.index is None,
    {
        let mut ls: Vec<String> = Vec::new();
        let mut i: usize = 0;
        while i < labels.len()
            invariant
                i <= labels@.len(),
                ls@.len() == i,
                forall|j: int| 0 <= j < i ==> ls@[j]@ == labels@[j]@,
            decreases labels@.len() - i,
        {
            ls.push(labels[i].to_owned());
            i += 1;
        }
        let f = Field { name: name.to_owned(), labels: ls, index: None };
        proof {
            assert(forall|j: int| 0 <= j < labels@.len() ==> f@.labels[j] == labels@[j]@);
        }
        f
    }

    /// A field with the given name and index, and no labels.
    pub fn indexed(name: &str, index: usize) -> (r: Self)
        ensures
            r@.name == name@,
            r@.labels == Seq::<Seq<char>>::empty(),
            r@.index == Some(index as int),
    {
        let f = Field { name: name.to_owned(), labels: Vec::new(), index: Some(index) };
        proof {
            assert(f@.labels =~= Seq::<Seq<char>>::empty());
        }
        f
    }
}

} // verus!
