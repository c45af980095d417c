use vstd::prelude::*;

verus! {

/// The six kinds of change, in the order in which a release lists them.
#[derive(Clone, Copy, Debug, PartialEq, Eq, Structural)]
pub enum Category {
    Added,
    Changed,
    Deprecated,
    Removed,
    Fixed,
    Security,
}

/// Number of categories; a release keeps one entry list per category.
pub const CATEGORY_COUNT: usize = 6;

/// The category at a given position of the canonical order.
pub open spec fn category_at(i: int) -> Category {
    if i == 0 {
        Category::Added
    } else if i == 1 {
        Category::Changed
    } else if i == 2 {
        Category::Deprecated
    } else if i == 3 {
        Category::Removed
    } else if i == 4 {
        Category::Fixed
    } else {
        Category::Security
    }
}

impl Category {
    /// Position of the category in the canonical order.
    pub open spec fn index(self) -> int {
        match self {
            Category::Added => 0,
            Category::Changed => 1,
            Category::Deprecated => 2,
            Category::Removed => 3,
            Category::Fixed => 4,
            Category::Security => 5,
        }
    }

    /// Capitalised name, as it stands in a level-3 heading.
    pub open spec fn spec_name(self) -> Seq<u8> {
        match self {
            Category::Added => seq!['A' as u8, 'd' as u8, 'd' as u8, 'e' as u8, 'd' as u8],
            Category::Changed => seq![
                'C' as u8, 'h' as u8, 'a' as u8, 'n' as u8, 'g' as u8, 'e' as u8, 'd' as u8,
            ],
            Category::Deprecated => seq![
                'D' as u8, 'e' as u8, 'p' as u8, 'r' as u8, 'e' as u8, 'c' as u8, 'a' as u8,
                't' as u8, 'e' as u8, 'd' as u8,
            ],
            Category::Removed => seq![
                'R' as u8, 'e' as u8, 'm' as u8, 'o' as u8, 'v' as u8, 'e' as u8, 'd' as u8,
            ],
            Category::Fixed => seq!['F' as u8, 'i' as u8, 'x' as u8, 'e' as u8, 'd' as u8],
            Category::Security => seq![
                'S' as u8, 'e' as u8, 'c' as u8, 'u' as u8, 'r' as u8, 'i' as u8, 't' as u8,
                'y' as u8,
            ],
        }
    }

    pub fn position(&self) -> (r: usize)
        ensures
            r as int == self.index(),
            r < CATEGORY_COUNT,
    {
        match self {
            Category::Added => 0,
            Category::Changed => 1,
            Category::Deprecated => 2,
            Category::Removed => 3,
            Category::Fixed => 4,
            Category::Security => 5,
        }
    }

    pub fn from_position(i: usize) -> (r: Category)
        requires
            i < CATEGORY_COUNT,
        ensures
            r == category_at(i as int),
            r.index() == i,
    {
        if i == 0 {
            Category::Added
        } else if i == 1 {
            Category::Changed
        } else if i == 2 {
            Category::Deprecated
        } else if i == 3 {
            Category::Removed
        } else if i == 4 {
            Category::Fixed
        } else {
            Category::Security
        }
    }

    /// The capitalised name as bytes.
    pub fn name(&self) -> (r: Vec<u8>)
        ensures
            r@ == self.spec_name(),
    {
        match self {
            Category::Added => vec!['A' as u8, 'd' as u8, 'd' as u8, 'e' as u8, 'd' as u8],
            Category::Changed => vec![
                'C' as u8, 'h' as u8, 'a' as u8, 'n' as u8, 'g' as u8, 'e' as u8, 'd' as u8,
            ],
            Category::Deprecated => vec![
                'D' as u8, 'e' as u8, 'p' as u8, 'r' as u8, 'e' as u8, 'c' as u8, 'a' as u8,
                't' as u8, 'e' as u8, 'd' as u8,
            ],
            Category::Removed => vec![
                'R' as u8, 'e' as u8, 'm' as u8, 'o' as u8, 'v' as u8, 'e' as u8, 'd' as u8,
            ],
            Category::Fixed => vec!['F' as u8, 'i' as u8, 'x' as u8, 'e' as u8, 'd' as u8],
            Category::Security => vec![
                'S' as u8, 'e' as u8, 'c' as u8, 'u' as u8, 'r' as u8, 'i' as u8, 't' as u8,
                'y' as u8,
            ],
        }
    }

    /// The category whose name `text` spells, ignoring ASCII case.
    pub fn from_text(text: &[u8]) -> (r: Option<Category>)
        ensures
            r == category_named(text@),
    {
        let mut i: usize = 0;
        while i < CATEGORY_COUNT
            invariant
                i <= CATEGORY_COUNT,
                forall|j: int| 0 <= j < i ==> !same_ignoring_case(text@, #[trigger] category_at(j).spec_name()),
            decreases CATEGORY_COUNT - i,
        {
            let c = Category::from_position(i);
            let name = c.name();
            if eq_ignore_case(text, name.as_slice()) {
                proof {
                    lemma_named_first(text@, i as int);
                }
                return Some(c);
            }
            i = i + 1;
        }
        proof {
            lemma_named_none(text@);
        }
        None
    }
}

/// ASCII lower case of one byte.
pub open spec fn ascii_lower(b: u8) -> u8 {
    if 65 <= b <= 90 {
        (b + 32) as u8
    } else {
        b
    }
}

pub open spec fn lower_seq(s: Seq<u8>) -> Seq<u8> {
    s.map_values(|b: u8| ascii_lower(b))
}

pub open spec fn same_ignoring_case(a: Seq<u8>, b: Seq<u8>) -> bool {
    lower_seq(a) == lower_seq(b)
}

/// The category named by `text` in any ASCII case, if there is one.
pub open spec fn category_named(text: Seq<u8>) -> Option<Category> {
    if same_ignoring_case(text, Category::Added.spec_name()) {
        Some(Category::Added)
    } else if same_ignoring_case(text, Category::Changed.spec_name()) {
        Some(Category::Changed)
    } else if same_ignoring_case(text, Category::Deprecated.spec_name()) {
        Some(Category::Deprecated)
    } else if same_ignoring_case(text, Category::Removed.spec_name()) {
        Some(Category::Removed)
    } else if same_ignoring_case(text, Category::Fixed.spec_name()) {
        Some(Category::Fixed)
    } else if same_ignoring_case(text, Category::Security.spec_name()) {
        Some(Category::Security)
    } else {
        None
    }
}

proof fn lemma_named_first(text: Seq<u8>, i: int)
    requires
        0 <= i < 6,
        same_ignoring_case(text, category_at(i).spec_name()),
        forall|j: int| 0 <= j < i ==> !same_ignoring_case(text, #[trigger] category_at(j).spec_name()),
    ensures
        category_named(text) == Some(category_at(i)),
{
    if i > 0 {
        assert(!same_ignoring_case(text, category_at(0).spec_name()));
    }
    if i > 1 {
        assert(!same_ignoring_case(text, category_at(1).spec_name()));
    }
    if i > 2 {
        assert(!same_ignoring_case(text, category_at(2).spec_name()));
    }
    if i > 3 {
        assert(!same_ignoring_case(text, category_at(3).spec_name()));
    }
    if i > 4 {
        assert(!same_ignoring_case(text, category_at(4).spec_name()));
    }
}

proof fn lemma_named_none(text: Seq<u8>)
    requires
        forall|j: int| 0 <= j < 6 ==> !same_ignoring_case(text, #[trigger] category_at(j).spec_name()),
    ensures
        category_named(text) == None::<Category>,
{
    assert(!same_ignoring_case(text, category_at(0).spec_name()));
    assert(!same_ignoring_case(text, category_at(1).spec_name()));
    assert(!same_ignoring_case(text, category_at(2).spec_name()));
    assert(!same_ignoring_case(text, category_at(3).spec_name()));
    assert(!same_ignoring_case(text, category_at(4).spec_name()));
    assert(!same_ignoring_case(text, category_at(5).spec_name()));
}

fn lower_byte(b: u8) -> (r: u8)
    ensures
        r == ascii_lower(b),
{
    if 65 <= b && b <= 90 {
        b + 32
    } else {
        b
    }
}

/// Whether two byte strings are equal up to ASCII case.
pub fn eq_ignore_case(a: &[u8], b: &[u8]) -> (r: bool)
    ensures
        r == same_ignoring_case(a@, b@),
{
    if a.len() != b.len() {
        proof {
            assert(lower_seq(a@).len() != lower_seq(b@).len());
        }
        return false;
    }
    let mut i: usize = 0;
    while i < a.len()
        invariant
            a@.len() == b@.len(),
            i <= a@.len(),
            forall|j: int| 0 <= j < i ==> ascii_lower(#[trigger] a@[j]) == ascii_lower(b@[j]),
        decreases a@.len() - i,
    {
        if lower_byte(a[i]) != lower_byte(b[i]) {
            proof {
                assert(lower_seq(a@)[i as int] != lower_seq(b@)[i as int]);
            }
            return false;
        }
        i = i + 1;
    }
    proof {
        assert(lower_seq(a@) =~= lower_seq(b@));
    }
    true
}

} // verus!
