//! Random names for files on their way to their place.
use rand::distr::SampleString;
use vstd::prelude::*;
use vstd::utf8::{encode_utf8, is_ascii_chars, is_ascii_chars_encode_utf8};

use crate::path::{
    file_name, is_name, joined, law_sibling, parent, parts, with_file_name, Part, PathBuf, SEPARATOR,
};

verus! {

/// How many characters a random name has.
pub const NAME_LENGTH: usize = 16;

/// Whether a character is an ASCII letter or digit.
pub open spec fn alphanumeric(c: char) -> bool {
    ('0' <= c && c <= '9') || ('A' <= c && c <= 'Z') || ('a' <= c && c <= 'z')
}

/// Whether a text can be a random name of that length.
pub open spec fn is_random_name(name: Seq<char>, length: nat) -> bool {
    &&& name.len() == length
    &&& forall|i: int| 0 <= i < name.len() ==> alphanumeric(#[trigger] name[i])
}

/// Calls `SampleString::sample_string` of `rand`'s `Alphanumeric` with the
/// thread's generator, `rand::rng`. The text has `length` characters, each an
/// ASCII letter or digit; which ones is left to chance.
#[verifier::external_body]
fn random_name(length: usize) -> (name: String)
    requires
        length <= 0xffff,
    ensures
        is_random_name(name@, length as nat),
{
    rand::distr::Alphanumeric.sample_string(&mut rand::rng(), length)
}

/// Whether `path` can be drawn as a temporary path for `target`: a random name
/// beside it.
pub open spec fn is_candidate(path: Seq<u8>, target: Seq<u8>) -> bool {
    exists|name: Seq<char>| #[trigger]
        is_random_name(name, NAME_LENGTH as nat) && path == with_file_name(
            target,
            encode_utf8(name),
        )
}

/// Whether `path` is beside `target`, under a name that was drawn at random.
pub closed spec fn is_drawn(path: Seq<u8>, target: Seq<u8>) -> bool {
    exists|name: String| #[trigger]
        call_ensures(random_name, (NAME_LENGTH,), name) && path == with_file_name(
            target,
            encode_utf8(name@),
        )
}

/// Draws a temporary path for `target`: a random name beside it.
pub fn pick_temporary(target: &PathBuf) -> (path: PathBuf)
    ensures
        is_candidate(path@, target@),
        is_drawn(path@, target@),
{
    let name = random_name(NAME_LENGTH);
    proof {
        assert(call_ensures(random_name, (NAME_LENGTH,), name));
    }
    let bytes = vstd::slice::slice_to_vec(name.as_str().as_bytes());
    target.with_file_name(&bytes)
}

/// A temporary path lies in the directory of its target, as long as the target
/// ends in a name.
pub proof fn law_candidate_beside(path: Seq<u8>, target: Seq<u8>)
    requires
        is_candidate(path, target),
        file_name(target) is Some,
    ensures
        parent(path) == parent(target),
        file_name(path) is Some,
        file_name(path)->0.len() == NAME_LENGTH,
{
    let name = choose|name: Seq<char>| #[trigger]
        is_random_name(name, NAME_LENGTH as nat) && path == with_file_name(
            target,
            encode_utf8(name),
        );
    assert(is_ascii_chars(name)) by {
        assert forall|i: int| 0 <= i < name.len() implies '\0' <= #[trigger] name[i]
            && name[i] <= '\u{7f}' by {
            assert(alphanumeric(name[i]));
        }
    }
    is_ascii_chars_encode_utf8(name);
    let bytes = encode_utf8(name);
    assert(is_name(bytes)) by {
        assert forall|i: int| 0 <= i < bytes.len() implies #[trigger] bytes[i] != SEPARATOR by {
            assert(alphanumeric(name[i]));
            assert(name[i] as u8 == bytes[i]);
        }
    }
    law_sibling(target, bytes);
}

/// A temporary path is the target with sixteen ASCII letters and digits in the
/// place of its name.
pub proof fn law_candidate_name(path: Seq<u8>, target: Seq<u8>)
    requires
        is_candidate(path, target),
        file_name(target) is Some,
    ensures
        parts(path).len() == parts(target).len(),
        parts(path).drop_last() == parts(target).drop_last(),
        file_name(path) is Some,
        file_name(path)->0.len() == 16,
        forall|i: int|
            0 <= i < 16 ==> {
                let byte = #[trigger] file_name(path)->0[i];
                (48 <= byte && byte <= 57) || (65 <= byte && byte <= 90) || (97 <= byte && byte
                    <= 122)
            },
{
    let name = choose|name: Seq<char>| #[trigger]
        is_random_name(name, NAME_LENGTH as nat) && path == with_file_name(
            target,
            encode_utf8(name),
        );
    assert(is_ascii_chars(name)) by {
        assert forall|i: int| 0 <= i < name.len() implies '\0' <= #[trigger] name[i]
            && name[i] <= '\u{7f}' by {
            assert(alphanumeric(name[i]));
        }
    }
    is_ascii_chars_encode_utf8(name);
    let bytes = encode_utf8(name);
    assert forall|i: int| 0 <= i < bytes.len() implies {
        let byte = #[trigger] bytes[i];
        (48 <= byte && byte <= 57) || (65 <= byte && byte <= 90) || (97 <= byte && byte <= 122)
    } by {
        assert(alphanumeric(name[i]));
        assert(name[i] as u8 == bytes[i]);
    }
    assert(is_name(bytes)) by {
        assert forall|i: int| 0 <= i < bytes.len() implies #[trigger] bytes[i] != SEPARATOR by {}
    }
    law_sibling(target, bytes);
    assert(parts(path).last() == Part::Name(bytes));
}

/// Every name that is drawn is one that a call of `rand` has given.
proof fn law_name_is_drawn(path: Seq<u8>, target: Seq<u8>)
    requires
        is_drawn(path, target),
        file_name(target) is Some,
    ensures
        exists|name: String|
            #![trigger encode_utf8(name@)]
            call_ensures(random_name, (16usize,), name) && path == joined(
                parent(target)->0,
                encode_utf8(name@),
            ),
{
    let name = choose|name: String| #[trigger]
        call_ensures(random_name, (NAME_LENGTH,), name) && path == with_file_name(
            target,
            encode_utf8(name@),
        );
    assert(path == joined(parent(target)->0, encode_utf8(name@)));
}

} // verus!
