//! Requests: what a module asks the resolver for, sorted by the form of the
//! string that asks.

use vstd::prelude::*;
use vstd::string::{StrSliceExecFns, StringExecFns};
use crate::pattern::Pattern;
use crate::syntax::{
    captures, groups_view, is_match, regex_groups, regex_matches, MODULE_PATH, URI_PATH,
    WINDOWS_PATH,
};

verus! {

/// A request, by its form.
#[derive(Debug, Hash)]
pub enum Request {
    Raw { path: Pattern, force_in_context: bool },
    Relative { path: Pattern, force_in_context: bool },
    Module { module: String, path: Pattern },
    ServerRelative { path: Pattern },
    Windows { path: Pattern },
    Empty,
    PackageInternal { path: Pattern },
    Uri { protocol: String, remainer: String },
    Unknown { path: Pattern },
    Dynamic,
    Alternatives { requests: Vec<Request> },
}

/// The string of a pattern that is known in full.
pub open spec fn constant_text(path: Pattern) -> Option<Seq<char>> {
    match path {
        Pattern::Constant(text) => Some(text@),
        _ => None,
    }
}

impl Request {
    /// The string that asks, where the request is known in full: the path,
    /// after the module's name for a module and after the protocol for a
    /// URI, and the empty string for an empty request.
    pub open spec fn request_text(&self) -> Option<Seq<char>> {
        match self {
            Request::Raw { path, .. } => constant_text(*path),
            Request::Relative { path, .. } => constant_text(*path),
            Request::Module { module, path } => match constant_text(*path) {
                Some(text) => Some(module@ + text),
                None => None,
            },
            Request::ServerRelative { path } => constant_text(*path),
            Request::Windows { path } => constant_text(*path),
            Request::Empty => Some(Seq::empty()),
            Request::PackageInternal { path } => constant_text(*path),
            Request::Uri { protocol, remainer } => Some(protocol@ + remainer@),
            Request::Unknown { path } => constant_text(*path),
            Request::Dynamic => None,
            Request::Alternatives { .. } => None,
        }
    }

    /// The string that asks, if the request is known in full.
    pub fn request(&self) -> (text: Option<String>)
        ensures
            text is Some == self.request_text() is Some,
            text matches Some(t) ==> self.request_text() == Some(t@),
    {
        match self {
            Request::Raw { path: Pattern::Constant(path), .. } => Some(path.clone()),
            Request::Relative { path: Pattern::Constant(path), .. } => Some(path.clone()),
            Request::Module { module, path: Pattern::Constant(path) } => Some(
                module.clone().concat(path.as_str()),
            ),
            Request::ServerRelative { path: Pattern::Constant(path) } => Some(path.clone()),
            Request::Windows { path: Pattern::Constant(path) } => Some(path.clone()),
            Request::Empty => Some(String::new()),
            Request::PackageInternal { path: Pattern::Constant(path) } => Some(path.clone()),
            Request::Uri { protocol, remainer } => Some(protocol.clone().concat(remainer.as_str())),
            Request::Unknown { path: Pattern::Constant(path) } => Some(path.clone()),
            _ => None,
        }
    }
}

/// The form of a request string.
pub enum RequestForm {
    Empty,
    ServerRelative,
    PackageInternal,
    Relative,
    Windows,
    Uri { protocol: Seq<char>, remainer: Seq<char> },
    Module { module: Seq<char>, path: Seq<char> },
    Unknown,
}

/// The first and the second capture group, where both took part in the
/// match.
pub open spec fn two_groups(groups: Option<Seq<Option<Seq<char>>>>) -> Option<
    (Seq<char>, Seq<char>),
> {
    match groups {
        Some(found) => if found.len() > 2 && found[1] is Some && found[2] is Some {
            Some((found[1]->Some_0, found[2]->Some_0))
        } else {
            None
        },
        None => None,
    }
}

/// The form that a request string has by its first characters alone, if
/// they decide it.
pub open spec fn plain_form(text: Seq<char>) -> Option<RequestForm> {
    if text.len() == 0 {
        Some(RequestForm::Empty)
    } else if seq!['/'].is_prefix_of(text) {
        Some(RequestForm::ServerRelative)
    } else if seq!['#'].is_prefix_of(text) {
        Some(RequestForm::PackageInternal)
    } else if seq!['.', '/'].is_prefix_of(text) || seq!['.', '.', '/'].is_prefix_of(text) || text
        == seq!['.'] || text == seq!['.', '.'] {
        Some(RequestForm::Relative)
    } else {
        None
    }
}

/// The form of a request string, given what the three regular expressions
/// found in it. The first characters decide first; then a Windows path wins
/// over a URI, and a URI over a module.
pub open spec fn form_from(
    text: Seq<char>,
    windows: bool,
    uri: Option<Seq<Option<Seq<char>>>>,
    module: Option<Seq<Option<Seq<char>>>>,
) -> RequestForm {
    match plain_form(text) {
        Some(form) => form,
        None => if windows {
            RequestForm::Windows
        } else {
            match two_groups(uri) {
                Some((protocol, remainer)) => RequestForm::Uri { protocol, remainer },
                None => match two_groups(module) {
                    Some((module, path)) => RequestForm::Module { module, path },
                    None => RequestForm::Unknown,
                },
            }
        },
    }
}

/// The form of a request string.
pub open spec fn form_of(text: Seq<char>) -> RequestForm {
    form_from(
        text,
        regex_matches(WINDOWS_PATH@, text),
        regex_groups(URI_PATH@, text),
        regex_groups(MODULE_PATH@, text),
    )
}

/// Whether `text` starts with `prefix`.
pub fn starts_with(text: &str, prefix: &str) -> (found: bool)
    ensures
        found == prefix@.is_prefix_of(text@),
{
    let wanted = prefix.unicode_len();
    if text.unicode_len() < wanted {
        return false;
    }
    let mut i: usize = 0;
    while i < wanted
        invariant
            i <= wanted,
            wanted == prefix@.len(),
            wanted <= text@.len(),
            forall|j: int| 0 <= j < i ==> text@[j] == prefix@[j],
        decreases wanted - i,
    {
        if text.get_char(i) != prefix.get_char(i) {
            return false;
        }
        i += 1;
    }
    assert(prefix@ =~= text@.subrange(0, wanted as int));
    true
}

/// Whether `text` is `other`, character by character.
pub fn same_text(text: &str, other: &str) -> (same: bool)
    ensures
        same == (text@ == other@),
{
    let same = text.unicode_len() == other.unicode_len() && starts_with(text, other);
    proof {
        if same {
            assert(text@ =~= other@);
        }
    }
    same
}

/// The first and the second capture group, where both took part in the
/// match.
pub fn first_two(groups: Option<Vec<Option<String>>>) -> (pair: Option<(String, String)>)
    ensures
        match pair {
            Some((first, second)) => two_groups(
                match groups {
                    Some(found) => Some(groups_view(found@)),
                    None => None,
                },
            ) == Some((first@, second@)),
            None => two_groups(
                match groups {
                    Some(found) => Some(groups_view(found@)),
                    None => None,
                },
            ) is None,
        },
{
    match groups {
        Some(found) => {
            if found.len() > 2 {
                match (&found[1], &found[2]) {
                    (Some(first), Some(second)) => Some((first.clone(), second.clone())),
                    _ => None,
                }
            } else {
                None
            }
        },
        None => None,
    }
}

impl Request {
    /// Whether this is the request that the string `text` of the form
    /// `form` asks for.
    pub open spec fn is_request_for(&self, text: Seq<char>, form: RequestForm) -> bool {
        match form {
            RequestForm::Empty => self is Empty,
            RequestForm::ServerRelative => constant_text(self->ServerRelative_path) == Some(text)
                && self is ServerRelative,
            RequestForm::PackageInternal => constant_text(self->PackageInternal_path) == Some(text)
                && self is PackageInternal,
            RequestForm::Relative => self is Relative && constant_text(self->Relative_path) == Some(
                text,
            ) && !self->Relative_force_in_context,
            RequestForm::Windows => self is Windows && constant_text(self->Windows_path) == Some(
                text,
            ),
            RequestForm::Uri { protocol, remainer } => self is Uri && self->protocol@ == protocol
                && self->remainer@ == remainer,
            RequestForm::Module { module, path } => self is Module && self->module@ == module
                && constant_text(self->Module_path) == Some(path),
            RequestForm::Unknown => self is Unknown && constant_text(self->Unknown_path) == Some(
                text,
            ),
        }
    }

    /// The request that the string `request` asks for, given what the three
    /// regular expressions found in it: `windows`, whether the one for
    /// Windows paths matched; `uri` and `module`, the capture groups of the
    /// ones for URIs and for modules.
    pub fn from_matches(
        request: String,
        windows: bool,
        uri: Option<Vec<Option<String>>>,
        module: Option<Vec<Option<String>>>,
    ) -> (parsed: Request)
        ensures
            parsed.is_request_for(
                request@,
                form_from(
                    request@,
                    windows,
                    match uri {
                        Some(found) => Some(groups_view(found@)),
                        None => None,
                    },
                    match module {
                        Some(found) => Some(groups_view(found@)),
                        None => None,
                    },
                ),
            ),
    {
        proof {
            reveal_plain_texts();
        }
        let text = request.as_str();
        if text.unicode_len() == 0 {
            Request::Empty
        } else if starts_with(text, "/") {
            Request::ServerRelative { path: Pattern::Constant(request) }
        } else if starts_with(text, "#") {
            Request::PackageInternal { path: Pattern::Constant(request) }
        } else if starts_with(text, "./") || starts_with(text, "../") || same_text(text, ".")
            || same_text(text, "..") {
            Request::Relative { path: Pattern::Constant(request), force_in_context: false }
        } else if windows {
            Request::Windows { path: Pattern::Constant(request) }
        } else {
            match first_two(uri) {
                Some((protocol, remainer)) => Request::Uri { protocol, remainer },
                None => match first_two(module) {
                    Some((module, path)) => Request::Module { module, path: Pattern::Constant(path) },
                    None => Request::Unknown { path: Pattern::Constant(request) },
                },
            }
        }
    }

    /// The request that the string `request` asks for.
    pub fn parse_string(request: String) -> (parsed: Request)
        ensures
            parsed.is_request_for(request@, form_of(request@)),
    {
        if has_plain_form(request.as_str()) {
            return Request::from_matches(request, false, None, None);
        }
        if is_match(WINDOWS_PATH, request.as_str()) {
            return Request::from_matches(request, true, None, None);
        }
        let uri = captures(URI_PATH, request.as_str());
        let module = if has_two(&uri) {
            None
        } else {
            captures(MODULE_PATH, request.as_str())
        };
        Request::from_matches(request, false, uri, module)
    }

    /// A request for `path` as it is.
    pub fn raw(path: Pattern, force_in_context: bool) -> (request: Request)
        ensures
            request == (Request::Raw { path, force_in_context }),
    {
        Request::Raw { path, force_in_context }
    }

    /// A request for `path`, relative to the place that asks.
    pub fn relative(path: Pattern, force_in_context: bool) -> (request: Request)
        ensures
            request == (Request::Relative { path, force_in_context }),
    {
        Request::Relative { path, force_in_context }
    }

    /// A request for `path` inside the module `module`.
    pub fn module(module: String, path: Pattern) -> (request: Request)
        ensures
            request == (Request::Module { module, path }),
    {
        Request::Module { module, path }
    }
}

/// What the literals hold that the first characters of a request are
/// compared with.
proof fn reveal_plain_texts()
    ensures
        "/"@ == seq!['/'],
        "#"@ == seq!['#'],
        "./"@ == seq!['.', '/'],
        "../"@ == seq!['.', '.', '/'],
        "."@ == seq!['.'],
        ".."@ == seq!['.', '.'],
{
    reveal_strlit("/");
    reveal_strlit("#");
    reveal_strlit("./");
    reveal_strlit("../");
    reveal_strlit(".");
    reveal_strlit("..");
    assert("/"@ =~= seq!['/']);
    assert("#"@ =~= seq!['#']);
    assert("./"@ =~= seq!['.', '/']);
    assert("../"@ =~= seq!['.', '.', '/']);
    assert("."@ =~= seq!['.']);
    assert(".."@ =~= seq!['.', '.']);
}

/// Whether the first characters of `text` decide the form of the request.
fn has_plain_form(text: &str) -> (plain: bool)
    ensures
        plain == plain_form(text@) is Some,
{
    proof {
        reveal_plain_texts();
    }
    text.unicode_len() == 0 || starts_with(text, "/") || starts_with(text, "#") || starts_with(
        text,
        "./",
    ) || starts_with(text, "../") || same_text(text, ".") || same_text(text, "..")
}

/// Whether the first and the second capture group both took part in the
/// match.
fn has_two(groups: &Option<Vec<Option<String>>>) -> (both: bool)
    ensures
        both == two_groups(
            match groups {
                Some(found) => Some(groups_view(found@)),
                None => None,
            },
        ) is Some,
{
    match groups {
        Some(found) => found.len() > 2 && found[1].is_some() && found[2].is_some(),
        None => false,
    }
}

} // verus!
