use vstd::prelude::*;

verus! {

/// The bytes before the facet count of a binary mesh.
pub const HEADER: usize = 80;

/// The bytes of one facet of a binary mesh: twelve words and a two-byte
/// attribute.
pub const FACET: usize = 50;

/// One facet of a binary mesh as it stands in the file. Each word is the bit
/// pattern of an IEEE 754 single.
#[derive(Debug, Copy, Clone, PartialEq, Eq)]
pub struct Facet {
    pub normal: [u32; 3],
    pub a: [u32; 3],
    pub b: [u32; 3],
    pub c: [u32; 3],
}

#[derive(Debug, Copy, Clone, PartialEq, Eq, Structural)]
pub enum StlError {
    /// The data ends before the facets that it announces.
    Truncated,
    /// The pattern of a facet was not taken as a regular expression.
    Pattern,
    /// A match of the facet pattern lacks one of its twelve numbers.
    Groups,
}

/// The little-endian word in the four bytes from `at` on.
pub open spec fn word_at(bytes: Seq<u8>, at: int) -> u32 {
    (bytes[at] + 0x100 * bytes[at + 1] + 0x1_0000 * bytes[at + 2] + 0x100_0000 * bytes[at
        + 3]) as u32
}

pub open spec fn triple_at(bytes: Seq<u8>, at: int) -> [u32; 3] {
    [word_at(bytes, at), word_at(bytes, at + 4), word_at(bytes, at + 8)]
}

/// The facet in the fifty bytes from `at` on.
pub open spec fn facet_at(bytes: Seq<u8>, at: int) -> Facet {
    Facet {
        normal: triple_at(bytes, at),
        a: triple_at(bytes, at + 12),
        b: triple_at(bytes, at + 24),
        c: triple_at(bytes, at + 36),
    }
}

/// The number of facets that a binary mesh announces after its header.
pub open spec fn announced(bytes: Seq<u8>) -> int {
    word_at(bytes, HEADER as int) as int
}

/// Whether the data holds its header, its count and every facet that the
/// count announces.
pub open spec fn complete(bytes: Seq<u8>) -> bool {
    bytes.len() >= HEADER + 4 && bytes.len() >= HEADER + 4 + FACET * announced(bytes)
}

pub fn get_u32(bytes: &[u8], at: usize) -> (word: Option<u32>)
    ensures
        at + 4 <= bytes@.len() ==> word == Some(word_at(bytes@, at as int)),
        at + 4 > bytes@.len() ==> word is None,
{
    if bytes.len() < 4 || at > bytes.len() - 4 {
        return None;
    }
    let b0: u32 = bytes[at] as u32;
    let b1: u32 = bytes[at + 1] as u32;
    let b2: u32 = bytes[at + 2] as u32;
    let b3: u32 = bytes[at + 3] as u32;
    Some(b0 + 0x100 * b1 + 0x1_0000 * b2 + 0x100_0000 * b3)
}

fn get_triple(bytes: &[u8], at: usize) -> (words: [u32; 3])
    requires
        at + 12 <= bytes@.len(),
    ensures
        words == triple_at(bytes@, at as int),
{
    let len = bytes.len();
    let x = get_u32(bytes, at);
    let y = get_u32(bytes, at + 4);
    let z = get_u32(bytes, at + 8);
    [x.unwrap(), y.unwrap(), z.unwrap()]
}

/// The facets of a binary mesh: a header of eighty bytes, the count of the
/// facets as a little-endian word, then the facets. What follows the last
/// announced facet is not read.
pub fn read_bin(bytes: &[u8]) -> (mesh: Result<Vec<Facet>, StlError>)
    ensures
        complete(bytes@) ==> mesh is Ok,
        !complete(bytes@) ==> mesh == Err::<Vec<Facet>, StlError>(StlError::Truncated),
        mesh matches Ok(facets) ==> {
            &&& facets@.len() == announced(bytes@)
            &&& forall|k: int|
                0 <= k < facets@.len() ==> #[trigger] facets@[k] == facet_at(
                    bytes@,
                    HEADER + 4 + FACET * k,
                )
        },
{
    let n = match get_u32(bytes, HEADER) {
        Some(n) => n,
        None => return Err(StlError::Truncated),
    };
    let len = bytes.len();
    let room: u64 = (len - (HEADER + 4)) as u64;
    if room / (FACET as u64) < n as u64 {
        return Err(StlError::Truncated);
    }
    let count: usize = n as usize;
    let mut facets: Vec<Facet> = Vec::new();
    let mut k: usize = 0;
    while k < count
        invariant
            k <= count,
            len == bytes@.len(),
            count == announced(bytes@),
            HEADER + 4 + FACET * count <= bytes@.len(),
            facets@.len() == k,
            forall|j: int|
                0 <= j < k ==> #[trigger] facets@[j] == facet_at(bytes@, HEADER + 4 + FACET * j),
        decreases count - k,
    {
        let at: usize = HEADER + 4 + FACET * k;
        let facet = Facet {
            normal: get_triple(bytes, at),
            a: get_triple(bytes, at + 12),
            b: get_triple(bytes, at + 24),
            c: get_triple(bytes, at + 36),
        };
        facets.push(facet);
        k += 1;
    }
    Ok(facets)
}

/// A facet of a text mesh as a regular expression: the normal, then the three
/// vertices inside `outer loop` and `endloop`, each number a group of its own.
pub const FACET_PATTERN: &'static str =
    r"facet\s+normal\s+([\w\.\+\-]+)\s+([\w\.\+\-]+)\s+([\w\.\+\-]+)[[:space:]]*outer\s+loop[[:space:]]*vertex\s+([\w\.\+\-]+)\s+([\w\.\+\-]+)\s+([\w\.\+\-]+)[[:space:]]*vertex\s+([\w\.\+\-]+)\s+([\w\.\+\-]+)\s+([\w\.\+\-]+)[[:space:]]*vertex\s+([\w\.\+\-]+)\s+([\w\.\+\-]+)\s+([\w\.\+\-]+)[[:space:]]*endloop[[:space:]]*endfacet";

/// The groups of every match of `pattern` in `text`, in the order of the
/// matches, as `regex` finds them; nothing where it does not take `pattern`.
/// Entry 0 of a match is the whole match, entry `g` what group `g` took, if it
/// took part.
pub uninterp spec fn regex_captures(pattern: Seq<char>, text: Seq<char>) -> Option<
    Seq<Seq<Option<Seq<char>>>>,
>;

#[verifier::external_type_specification]
#[verifier::external_body]
pub struct ExRegexError(regex::Error);

/// `regex::Regex::new` on `pattern`, then `Regex::captures_iter` on `text`,
/// each `Captures` read through `iter` and each `Match` through `as_str`.
/// What comes back depends on the two texts alone; the contract gives it its
/// name and claims nothing of what it holds, but that the error of `new`
/// stands for a pattern not taken.
#[verifier::external_body]
fn captures_iter(pattern: &str, text: &str) -> (found: Result<
    Vec<Vec<Option<String>>>,
    regex::Error,
>)
    ensures
        found matches Ok(matches) ==> regex_captures(pattern@, text@) == Some(matches.deep_view()),
        found is Err ==> regex_captures(pattern@, text@) is None,
{
    let re = regex::Regex::new(pattern)?;
    Ok(
        re.captures_iter(text).map(
            |c| c.iter().map(|g| g.map(|m| m.as_str().to_string())).collect(),
        ).collect(),
    )
}

/// Whether a match holds the whole match and twelve numbers.
pub open spec fn shaped(groups: Seq<Option<Seq<char>>>) -> bool {
    groups.len() == 13 && forall|g: int| 1 <= g < 13 ==> (#[trigger] groups[g]) is Some
}

/// The twelve numbers of a match as they are written: the normal, then the
/// three vertices.
pub open spec fn numbers_of(groups: Seq<Option<Seq<char>>>) -> Seq<Seq<char>> {
    Seq::new(12, |g: int| groups[g + 1].unwrap())
}

/// The facets that the matches of the facet pattern stand for.
pub open spec fn facets_from(found: Option<Seq<Seq<Option<Seq<char>>>>>) -> Result<
    Seq<Seq<Seq<char>>>,
    StlError,
> {
    match found {
        None => Err(StlError::Pattern),
        Some(matches) => if forall|k: int|
            0 <= k < matches.len() ==> shaped(#[trigger] matches[k]) {
            Ok(Seq::new(matches.len(), |k: int| numbers_of(matches[k])))
        } else {
            Err(StlError::Groups)
        },
    }
}

/// The facets of a text mesh from the matches of the facet pattern in it:
/// for each match its twelve numbers as they are written.
pub fn facets_of(found: Option<Vec<Vec<Option<String>>>>) -> (mesh: Result<
    Vec<Vec<String>>,
    StlError,
>)
    ensures
        mesh matches Ok(facets) ==> facets_from(found.deep_view()) == Ok::<
            Seq<Seq<Seq<char>>>,
            StlError,
        >(facets.deep_view()),
        mesh matches Err(e) ==> facets_from(found.deep_view()) == Err::<
            Seq<Seq<Seq<char>>>,
            StlError,
        >(e),
{
    let matches = match found {
        Some(matches) => matches,
        None => return Err(StlError::Pattern),
    };
    let mut facets: Vec<Vec<String>> = Vec::new();
    let mut k: usize = 0;
    while k < matches.len()
        invariant
            k <= matches.len(),
            found.deep_view() == Some(matches.deep_view()),
            facets@.len() == k,
            forall|j: int| 0 <= j < k ==> shaped(#[trigger] matches@[j].deep_view()),
            forall|j: int|
                0 <= j < k ==> (#[trigger] facets@[j]).deep_view() == numbers_of(
                    matches@[j].deep_view(),
                ),
        decreases matches.len() - k,
    {
        let groups = &matches[k];
        if groups.len() != 13 {
            proof {
                assert(!shaped(matches.deep_view()[k as int]));
            }
            return Err(StlError::Groups);
        }
        let mut numbers: Vec<String> = Vec::new();
        let mut g: usize = 1;
        while g < 13
            invariant
                1 <= g <= 13,
                k < matches.len(),
                groups == matches@[k as int],
                groups@.len() == 13,
                numbers@.len() == g - 1,
                forall|h: int| 1 <= h < g ==> (#[trigger] groups@[h]) is Some,
                forall|h: int|
                    0 <= h < g - 1 ==> (#[trigger] numbers@[h])@ == groups@[h + 1].unwrap()@,
                found.deep_view() == Some(matches.deep_view()),
            decreases 13 - g,
        {
            match &groups[g] {
                Some(number) => numbers.push(number.clone()),
                None => {
                    proof {
                        assert(matches.deep_view()[k as int][g as int] is None);
                        assert(!shaped(matches.deep_view()[k as int]));
                    }
                    return Err(StlError::Groups);
                },
            }
            g += 1;
        }
        proof {
            let taken = groups.deep_view();
            assert forall|h: int| 1 <= h < 13 implies (#[trigger] taken[h]) is Some by {
                assert(groups@[h] is Some);
            }
            assert(numbers.deep_view() =~= numbers_of(groups.deep_view())) by {
                assert forall|h: int| 0 <= h < 12 implies numbers.deep_view()[h] == numbers_of(
                    groups.deep_view(),
                )[h] by {
                    assert(numbers@[h]@ == groups@[h + 1].unwrap()@);
                }
            }
        }
        facets.push(numbers);
        k += 1;
    }
    proof {
        let ms = matches.deep_view();
        assert forall|j: int| 0 <= j < ms.len() implies shaped(#[trigger] ms[j]) by {
            assert(shaped(matches@[j].deep_view()));
        }
        assert(facets.deep_view() =~= Seq::new(ms.len(), |j: int| numbers_of(ms[j]))) by {
            assert forall|j: int| 0 <= j < ms.len() implies facets.deep_view()[j] == numbers_of(
                ms[j],
            ) by {
                assert(facets@[j].deep_view() == numbers_of(matches@[j].deep_view()));
            }
        }
    }
    Ok(facets)
}

/// The facets of a text mesh, each as its twelve numbers as they are
/// written. Text between the facets is passed over.
pub fn read(text: &str) -> (mesh: Result<Vec<Vec<String>>, StlError>)
    ensures
        mesh matches Ok(facets) ==> facets_from(regex_captures(FACET_PATTERN@, text@)) == Ok::<
            Seq<Seq<Seq<char>>>,
            StlError,
        >(facets.deep_view()),
        mesh matches Err(e) ==> facets_from(regex_captures(FACET_PATTERN@, text@)) == Err::<
            Seq<Seq<Seq<char>>>,
            StlError,
        >(e),
{
    match captures_iter(FACET_PATTERN, text) {
        Ok(matches) => facets_of(Some(matches)),
        Err(_) => Err(StlError::Pattern),
    }
}

} // verus!
