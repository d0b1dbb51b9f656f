//! The frontend's files, by the names that a browser asks for.

use vstd::prelude::*;

use crate::text::same;

verus! {

/// A file of the frontend.
pub struct Asset {
    pub path: String,
    pub bytes: Vec<u8>,
}

/// The contents of the first file of a name.
pub open spec fn found(files: Seq<Asset>, rel: Seq<char>) -> Option<Seq<u8>>
    decreases files.len(),
{
    if files.len() == 0 {
        None
    } else if files[0].path@ == rel {
        Some(files[0].bytes@)
    } else {
        found(files.skip(1), rel)
    }
}

/// One file, by the path the browser asks for: `index.html`, `app.js`.
pub fn get<'a>(files: &'a Vec<Asset>, rel: &str) -> (r: Option<&'a Vec<u8>>)
    ensures
        match found(files@, rel@) {
            Some(b) => r matches Some(x) && x@ == b,
            None => r is None,
        },
{
    let mut i: usize = 0;
    proof {
        assert(files@.skip(0) =~= files@);
    }
    while i < files.len()
        invariant
            i <= files@.len(),
            found(files@, rel@) == found(files@.skip(i as int), rel@),
        decreases files.len() - i,
    {
        proof {
            assert(files@.skip(i as int)[0] == files@[i as int]);
            assert(files@.skip(i as int).skip(1) =~= files@.skip(i + 1));
        }
        if same(files[i].path.as_str(), rel) {
            return Some(&files[i].bytes);
        }
        i += 1;
    }
    None
}

/// A file that is found is the first of its name, and a name that no file has is not
/// found.
pub proof fn law_first_of_its_name(files: Seq<Asset>, rel: Seq<char>)
    ensures
        found(files, rel) is None <==> forall|i: int|
            0 <= i < files.len() ==> (#[trigger] files[i]).path@ != rel,
        found(files, rel) matches Some(x) ==> exists|i: int|
            0 <= i < files.len() && (#[trigger] files[i]).path@ == rel && files[i].bytes@ == x
                && forall|j: int| 0 <= j < i ==> (#[trigger] files[j]).path@ != rel,
    decreases files.len(),
{
    if files.len() > 0 {
        if files[0].path@ == rel {
            assert(found(files, rel) == Some(files[0].bytes@));
        } else {
            let r = files.skip(1);
            law_first_of_its_name(r, rel);
            if let Some(x) = found(r, rel) {
                let i = choose|i: int|
                    0 <= i < r.len() && (#[trigger] r[i]).path@ == rel && r[i].bytes@ == x
                        && forall|j: int| 0 <= j < i ==> (#[trigger] r[j]).path@ != rel;
                assert(files[i + 1] == r[i]);
                assert forall|j: int| 0 <= j < i + 1 implies (#[trigger] files[j]).path@ != rel by {
                    if j > 0 {
                        assert(r[j - 1] == files[j]);
                    }
                }
            } else {
                assert forall|i: int| 0 <= i < files.len() implies (#[trigger] files[i]).path@
                    != rel by {
                    if i > 0 {
                        assert(r[i - 1] == files[i]);
                    }
                }
            }
        }
    }
}

} // verus!
