//! Stored values: JSON objects whose members are all strings.

use crate::error::{ResolutionError, ResolutionFault};
use vstd::prelude::*;

verus! {

/// What a text holds when it is read as one JSON document.
///
/// `Some` when the document is an object, with its members in the order in
/// which their keys first appear; a member carries its text when its value
/// is a JSON string and `None` when it is anything else. `None` when the text
/// is not a JSON document, or is one that is not an object.
pub uninterp spec fn json_object(text: Seq<char>) -> Option<Seq<(Seq<char>, Option<Seq<char>>)>>;

/// Reads `text` with `serde_json::from_str` as a `serde_json::Value`, takes
/// the members of the object with `Value::as_object` and the text of each
/// member with `Value::as_str`.
///
/// Nothing is proved of this function. Its contract claims only that the
/// result depends on the characters of `text` and on nothing else, which is
/// what lets [`json_object`] stand for it.
#[verifier::external_body]
pub(crate) fn decode_object(text: &str) -> (object: Option<Vec<(String, Option<String>)>>)
    ensures
        object.deep_view() == json_object(text@),
{
    let document = serde_json::from_str::<serde_json::Value>(text).ok()?;
    let members = document.as_object()?.iter();
    Some(members.map(|(key, value)| (key.clone(), value.as_str().map(str::to_owned))).collect())
}

/// The bindings that the members of an object give, in their order, or the
/// key of the first member that holds no text.
pub open spec fn member_bindings(members: Seq<(Seq<char>, Option<Seq<char>>)>) -> Result<
    Seq<(Seq<char>, Seq<char>)>,
    Seq<char>,
>
    decreases members.len(),
{
    if members.len() == 0 {
        Ok(Seq::empty())
    } else {
        match member_bindings(members.drop_last()) {
            Err(key) => Err(key),
            Ok(bindings) => match members.last().1 {
                None => Err(members.last().0),
                Some(text) => Ok(bindings.push((members.last().0, text))),
            },
        }
    }
}

/// The members of an object as bindings, where each of them holds text.
pub open spec fn member_texts(members: Seq<(Seq<char>, Option<Seq<char>>)>) -> Seq<
    (Seq<char>, Seq<char>),
> {
    Seq::new(members.len(), |m: int| (members[m].0, members[m].1->0))
}

/// Whether every member holds text.
pub open spec fn all_text(members: Seq<(Seq<char>, Option<Seq<char>>)>) -> bool {
    forall|m: int| 0 <= m < members.len() ==> (#[trigger] members[m]).1 is Some
}

/// An object whose members all hold text gives a binding for each member,
/// in their sequence: key and text.
pub proof fn lemma_member_bindings_of_text(members: Seq<(Seq<char>, Option<Seq<char>>)>)
    requires
        all_text(members),
    ensures
        member_bindings(members) == Ok::<_, Seq<char>>(member_texts(members)),
    decreases members.len(),
{
    if members.len() == 0 {
        assert(member_texts(members) =~= Seq::empty());
    } else {
        let front = members.drop_last();
        assert forall|m: int| 0 <= m < front.len() implies (#[trigger] front[m]).1 is Some by {
            assert(members[m].1 is Some);
        }
        lemma_member_bindings_of_text(front);
        assert(members[members.len() - 1].1 is Some);
        assert(member_texts(members) =~= member_texts(front).push(
            (members.last().0, members.last().1->0),
        ));
    }
}

/// What the record called `name` contributes, given what its value decodes to.
pub open spec fn object_bindings(
    name: Seq<char>,
    object: Option<Seq<(Seq<char>, Option<Seq<char>>)>>,
) -> Result<Seq<(Seq<char>, Seq<char>)>, ResolutionFault> {
    match object {
        None => Err(ResolutionFault::Malformed(name)),
        Some(members) => match member_bindings(members) {
            Ok(bindings) => Ok(bindings),
            Err(key) => Err(ResolutionFault::InvalidValue(name, key)),
        },
    }
}

/// A member without text among the first members is the fault of the whole
/// object, whatever follows it.
pub proof fn lemma_member_bindings_fails_early(
    members: Seq<(Seq<char>, Option<Seq<char>>)>,
    n: int,
)
    requires
        0 <= n <= members.len(),
        member_bindings(members.take(n)) is Err,
    ensures
        member_bindings(members) == member_bindings(members.take(n)),
    decreases members.len() - n,
{
    if n < members.len() {
        assert(members.take(n + 1).drop_last() =~= members.take(n));
        lemma_member_bindings_fails_early(members, n + 1);
    } else {
        assert(members.take(n) =~= members);
    }
}

/// Turns a decoded object into the bindings it contributes.
///
/// Fails with `Malformed` when there is no object, and with `InvalidValue`
/// for the first member, in the order of the object, that is not a string.
pub fn flatten_object(name: &String, object: &Option<Vec<(String, Option<String>)>>) -> (result:
    Result<Vec<(String, String)>, ResolutionError>)
    ensures
        match object_bindings(name@, object.deep_view()) {
            Ok(bindings) => result matches Ok(found) && found.deep_view() == bindings,
            Err(fault) => result matches Err(error) && error@ == fault,
        },
{
    match object {
        None => Err(ResolutionError::Malformed(name.clone())),
        Some(members) => {
            let ghost all = members.deep_view();
            let mut found: Vec<(String, String)> = Vec::new();
            let mut i: usize = 0;
            assert(all.take(0) =~= Seq::empty());
            assert(found.deep_view() =~= Seq::empty());
            while i < members.len()
                invariant
                    i <= members.len(),
                    all == members.deep_view(),
                    object.deep_view() == Some(all),
                    member_bindings(all.take(i as int)) == Ok::<_, Seq<char>>(found.deep_view()),
                decreases members.len() - i,
            {
                assert(all.take(i + 1).drop_last() =~= all.take(i as int));
                assert(all.take(i + 1).last() == all[i as int]);
                match &members[i].1 {
                    None => {
                        proof {
                            assert(all[i as int].1 is None);
                            assert(member_bindings(all.take(i + 1)) == Err::<
                                Seq<(Seq<char>, Seq<char>)>,
                                _,
                            >(all[i as int].0));
                            lemma_member_bindings_fails_early(all, i + 1);
                        }
                        return Err(
                            ResolutionError::InvalidValue(name.clone(), members[i].0.clone()),
                        );
                    },
                    Some(text) => {
                        let ghost before = found.deep_view();
                        found.push((members[i].0.clone(), text.clone()));
                        assert(found.deep_view() =~= before.push((all[i as int].0, text@)));
                    },
                }
                i += 1;
            }
            assert(all.take(i as int) =~= all);
            Ok(found)
        },
    }
}

} // verus!
