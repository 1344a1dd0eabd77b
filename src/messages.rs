//! Messages built for a chat context, and a context that writes them out
//! locally instead of sending them.

use vstd::prelude::*;

verus! {

/// What a context knows of the user who spoke.
pub trait ContextTrait {
    fn get_user_id(&self) -> u64;

    fn get_display_name(&self) -> String;
}

/// Marks the types that a context can send as a message.
pub trait Sendable {}

impl Sendable for String {}

/// The parts of a message, before a context lays them out.
pub struct MessageConstructor {
    pub title: String,
    pub description: String,
    pub ephemeral: bool,
    pub include_author: bool,
    pub contents: String,
}

impl Default for MessageConstructor {
    fn default() -> (r: MessageConstructor)
        ensures
            r.title@ == Seq::<char>::empty(),
            r.description@ == Seq::<char>::empty(),
            !r.ephemeral,
            !r.include_author,
            r.contents@ == Seq::<char>::empty(),
    {
        MessageConstructor {
            title: String::new(),
            description: String::new(),
            ephemeral: false,
            include_author: false,
            contents: String::new(),
        }
    }
}

/// A context with no chat service behind it: a fixed user, and messages
/// laid out as plain text.
pub struct LocalContext {}

pub open spec fn bool_text(b: bool) -> Seq<char> {
    if b {
        "true"@
    } else {
        "false"@
    }
}

/// The plain-text layout of a message.
pub open spec fn local_layout(m: MessageConstructor) -> Seq<char> {
    "\ntitle: "@ + m.title@ + "\ndescription: "@ + m.description@ + "\nephemeral: "@ + bool_text(m.ephemeral)
        + "\ninclude_author: "@ + bool_text(m.include_author) + "\n\n"@ + m.contents@
}

fn push_text(out: &mut String, s: &str)
    ensures
        final(out)@ == old(out)@ + s@,
{
    out.append(s);
}

fn push_bool(out: &mut String, b: bool)
    ensures
        final(out)@ == old(out)@ + bool_text(b),
{
    if b {
        push_text(out, "true");
    } else {
        push_text(out, "false");
    }
}

impl LocalContext {
    pub fn new() -> (r: LocalContext) {
        LocalContext {}
    }

    /// Lays a message out as plain text, one labelled line per part and the
    /// contents after a blank line.
    pub fn message_constructor(&self, constructor: MessageConstructor) -> (r: String)
        ensures
            r@ == local_layout(constructor),
    {
        let mut out = String::new();
        push_text(&mut out, "\ntitle: ");
        push_text(&mut out, constructor.title.as_str());
        push_text(&mut out, "\ndescription: ");
        push_text(&mut out, constructor.description.as_str());
        push_text(&mut out, "\nephemeral: ");
        push_bool(&mut out, constructor.ephemeral);
        push_text(&mut out, "\ninclude_author: ");
        push_bool(&mut out, constructor.include_author);
        push_text(&mut out, "\n\n");
        push_text(&mut out, constructor.contents.as_str());
        assert(out@ =~= local_layout(constructor));
        out
    }
}

impl ContextTrait for LocalContext {
    fn get_user_id(&self) -> u64 {
        0
    }

    fn get_display_name(&self) -> String {
        String::from_str("local_username")
    }
}

} // verus!
