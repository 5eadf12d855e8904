//! The reply that a matching post gets.

use vstd::prelude::*;
use crate::normalize::push_char;
use crate::trigger::{reply_needed, requires_reply};

verus! {

/// Who may see a post; a reply keeps the visibility of the post it answers.
#[derive(Clone, Copy, Debug, PartialEq, Eq, Structural)]
pub enum Visibility {
    /// Only the accounts mentioned.
    Direct,
    /// Followers only.
    Private,
    /// Public, but kept off the public timelines.
    Unlisted,
    /// Public timelines.
    Public,
}

/// A reply ready to be posted.
pub struct Reply {
    /// The body of the reply.
    pub text: String,
    /// The visibility of the answered post.
    pub visibility: Visibility,
    /// The identifier of the answered post.
    pub in_reply_to: String,
}

/// "Don't grill it": the message that a matching post is answered with.
pub const SCOLD: &'static str = "焼くな";

/// The characters of [`SCOLD`].
pub open spec fn scold() -> Seq<char> {
    seq!['焼', 'く', 'な']
}

/// `@author message`: a message addressed to an account.
pub open spec fn addressed(author: Seq<char>, message: Seq<char>) -> Seq<char> {
    seq!['@'] + author + seq![' '] + message
}

/// The body of a reply: `@`, the author's handle, a space, the message.
pub fn reply_text(author: &str, message: &str) -> (r: String)
    ensures
        r@ == addressed(author@, message@),
{
    let mut s = String::new();
    push_char(&mut s, '@');
    s.append(author);
    push_char(&mut s, ' ');
    s.append(message);
    s
}

/// The reply to a post with body `content`, written by `author` with the
/// given visibility and identifier `id`, or `None` where the post needs no
/// reply.
pub fn respond(content: &str, author: &str, visibility: Visibility, id: &str) -> (r: Option<
    Reply,
>)
    ensures
        r is Some <==> reply_needed(content@),
        r matches Some(p) ==> {
            &&& p.text@ == addressed(author@, scold())
            &&& p.visibility == visibility
            &&& p.in_reply_to@ == id@
        },
{
    if !requires_reply(content) {
        return None;
    }
    proof {
        reveal_strlit("焼くな");
    }
    Some(
        Reply {
            text: reply_text(author, SCOLD),
            visibility,
            in_reply_to: String::from_str(id),
        },
    )
}

} // verus!
