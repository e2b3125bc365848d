//! The names of the options of network rules, told apart.

use vstd::prelude::*;

use crate::filters::network_parser::option_parts;
use crate::text::is_space;

verus! {

/// The text of an option: neither a separator of options nor what is taken for the end
/// of another sort of line stands in it.
pub open spec fn is_option(s: Seq<char>) -> bool {
    &&& s.len() > 0
    &&& !s.contains('$') && !s.contains(',')
    &&& !is_space(s.last()) && s.last() != '/'
}

/// A text without `=`, `,`, `$` and `~` is an option by itself, and negated by a `~`
/// before it.
pub proof fn lemma_bare_option(s: Seq<char>)
    requires
        s.len() > 0,
        forall|i: int| 0 <= i < s.len() ==> is_option_char(#[trigger] s[i]),
    ensures
        is_option(s),
        is_option(seq!['~'] + s),
        option_parts(s) == (false, s, Seq::<char>::empty()),
        option_parts(seq!['~'] + s) == (true, s, Seq::<char>::empty()),
{
    let negated = seq!['~'] + s;
    assert(is_option_char(s[0]));
    assert(is_option_char(s[s.len() - 1]));
    assert forall|c: char| !is_option_char(c) implies !(#[trigger] s.contains(c)) by {
        if s.contains(c) {
            let i = choose|i: int| 0 <= i < s.len() && s[i] == c;
            assert(is_option_char(s[i]));
        }
    }
    assert(!s.contains('=') && !s.contains('$') && !s.contains(','));
    assert forall|c: char| c != '~' && !s.contains(c) implies !(#[trigger] negated.contains(c)) by {
        if negated.contains(c) {
            let i = choose|i: int| 0 <= i < negated.len() && negated[i] == c;
            if i > 0 {
                assert(s[i - 1] == c);
            }
        }
    }
    assert(!negated.contains('$') && !negated.contains(','));
    s.index_of_first_ensures('=');
    assert(negated.skip(1) =~= s);
    assert(negated.last() == s.last());
}

/// The characters that the names of options are made of.
pub open spec fn is_option_char(c: char) -> bool {
    ('a' <= c <= 'z') || ('0' <= c <= '9') || c == '-'
}

/// The option `badfilter`.
pub proof fn lemma_badfilter()
    ensures
        "badfilter"@.len() == 9,
        is_option("badfilter"@),
        is_option(seq!['~'] + "badfilter"@),
        option_parts("badfilter"@) == (false, "badfilter"@, Seq::<char>::empty()),
        option_parts(seq!['~'] + "badfilter"@) == (true, "badfilter"@, Seq::<char>::empty()),
{
    let s = "badfilter"@;
    reveal_strlit("badfilter");
    assert forall|i: int| 0 <= i < s.len() implies is_option_char(#[trigger] s[i]) by {
        if i == 0 {
        } else if i == 1 {
        } else if i == 2 {
        } else if i == 3 {
        } else if i == 4 {
        } else if i == 5 {
        } else if i == 6 {
        } else if i == 7 {
        } else if i == 8 {
        }
    }
    lemma_bare_option(s);
}

/// The option `important`.
pub proof fn lemma_important()
    ensures
        "important"@.len() == 9,
        is_option("important"@),
        is_option(seq!['~'] + "important"@),
        option_parts("important"@) == (false, "important"@, Seq::<char>::empty()),
        option_parts(seq!['~'] + "important"@) == (true, "important"@, Seq::<char>::empty()),
{
    let s = "important"@;
    reveal_strlit("important");
    assert forall|i: int| 0 <= i < s.len() implies is_option_char(#[trigger] s[i]) by {
        if i == 0 {
        } else if i == 1 {
        } else if i == 2 {
        } else if i == 3 {
        } else if i == 4 {
        } else if i == 5 {
        } else if i == 6 {
        } else if i == 7 {
        } else if i == 8 {
        }
    }
    lemma_bare_option(s);
}

/// The option `match-case`.
pub proof fn lemma_match_case()
    ensures
        "match-case"@.len() == 10,
        is_option("match-case"@),
        is_option(seq!['~'] + "match-case"@),
        option_parts("match-case"@) == (false, "match-case"@, Seq::<char>::empty()),
        option_parts(seq!['~'] + "match-case"@) == (true, "match-case"@, Seq::<char>::empty()),
{
    let s = "match-case"@;
    reveal_strlit("match-case");
    assert forall|i: int| 0 <= i < s.len() implies is_option_char(#[trigger] s[i]) by {
        if i == 0 {
        } else if i == 1 {
        } else if i == 2 {
        } else if i == 3 {
        } else if i == 4 {
        } else if i == 5 {
        } else if i == 6 {
        } else if i == 7 {
        } else if i == 8 {
        } else if i == 9 {
        }
    }
    lemma_bare_option(s);
}

/// The option `third-party`.
pub proof fn lemma_third_party()
    ensures
        "third-party"@.len() == 11,
        is_option("third-party"@),
        is_option(seq!['~'] + "third-party"@),
        option_parts("third-party"@) == (false, "third-party"@, Seq::<char>::empty()),
        option_parts(seq!['~'] + "third-party"@) == (true, "third-party"@, Seq::<char>::empty()),
{
    let s = "third-party"@;
    reveal_strlit("third-party");
    assert forall|i: int| 0 <= i < s.len() implies is_option_char(#[trigger] s[i]) by {
        if i == 0 {
        } else if i == 1 {
        } else if i == 2 {
        } else if i == 3 {
        } else if i == 4 {
        } else if i == 5 {
        } else if i == 6 {
        } else if i == 7 {
        } else if i == 8 {
        } else if i == 9 {
        } else if i == 10 {
        }
    }
    lemma_bare_option(s);
}

/// The option `3p`.
pub proof fn lemma_three_p()
    ensures
        "3p"@.len() == 2,
        is_option("3p"@),
        is_option(seq!['~'] + "3p"@),
        option_parts("3p"@) == (false, "3p"@, Seq::<char>::empty()),
        option_parts(seq!['~'] + "3p"@) == (true, "3p"@, Seq::<char>::empty()),
{
    let s = "3p"@;
    reveal_strlit("3p");
    assert forall|i: int| 0 <= i < s.len() implies is_option_char(#[trigger] s[i]) by {
        if i == 0 {
        } else if i == 1 {
        }
    }
    lemma_bare_option(s);
}

/// The option `first-party`.
pub proof fn lemma_first_party()
    ensures
        "first-party"@.len() == 11,
        is_option("first-party"@),
        is_option(seq!['~'] + "first-party"@),
        option_parts("first-party"@) == (false, "first-party"@, Seq::<char>::empty()),
        option_parts(seq!['~'] + "first-party"@) == (true, "first-party"@, Seq::<char>::empty()),
{
    let s = "first-party"@;
    reveal_strlit("first-party");
    assert forall|i: int| 0 <= i < s.len() implies is_option_char(#[trigger] s[i]) by {
        if i == 0 {
        } else if i == 1 {
        } else if i == 2 {
        } else if i == 3 {
        } else if i == 4 {
        } else if i == 5 {
        } else if i == 6 {
        } else if i == 7 {
        } else if i == 8 {
        } else if i == 9 {
        } else if i == 10 {
        }
    }
    lemma_bare_option(s);
}

/// The option `1p`.
pub proof fn lemma_one_p()
    ensures
        "1p"@.len() == 2,
        is_option("1p"@),
        is_option(seq!['~'] + "1p"@),
        option_parts("1p"@) == (false, "1p"@, Seq::<char>::empty()),
        option_parts(seq!['~'] + "1p"@) == (true, "1p"@, Seq::<char>::empty()),
{
    let s = "1p"@;
    reveal_strlit("1p");
    assert forall|i: int| 0 <= i < s.len() implies is_option_char(#[trigger] s[i]) by {
        if i == 0 {
        } else if i == 1 {
        }
    }
    lemma_bare_option(s);
}

/// The option `generichide`.
pub proof fn lemma_generichide()
    ensures
        "generichide"@.len() == 11,
        is_option("generichide"@),
        is_option(seq!['~'] + "generichide"@),
        option_parts("generichide"@) == (false, "generichide"@, Seq::<char>::empty()),
        option_parts(seq!['~'] + "generichide"@) == (true, "generichide"@, Seq::<char>::empty()),
{
    let s = "generichide"@;
    reveal_strlit("generichide");
    assert forall|i: int| 0 <= i < s.len() implies is_option_char(#[trigger] s[i]) by {
        if i == 0 {
        } else if i == 1 {
        } else if i == 2 {
        } else if i == 3 {
        } else if i == 4 {
        } else if i == 5 {
        } else if i == 6 {
        } else if i == 7 {
        } else if i == 8 {
        } else if i == 9 {
        } else if i == 10 {
        }
    }
    lemma_bare_option(s);
}

/// The option `ghide`.
pub proof fn lemma_ghide()
    ensures
        "ghide"@.len() == 5,
        is_option("ghide"@),
        is_option(seq!['~'] + "ghide"@),
        option_parts("ghide"@) == (false, "ghide"@, Seq::<char>::empty()),
        option_parts(seq!['~'] + "ghide"@) == (true, "ghide"@, Seq::<char>::empty()),
{
    let s = "ghide"@;
    reveal_strlit("ghide");
    assert forall|i: int| 0 <= i < s.len() implies is_option_char(#[trigger] s[i]) by {
        if i == 0 {
        } else if i == 1 {
        } else if i == 2 {
        } else if i == 3 {
        } else if i == 4 {
        }
    }
    lemma_bare_option(s);
}

/// The option `document`.
pub proof fn lemma_document()
    ensures
        "document"@.len() == 8,
        is_option("document"@),
        is_option(seq!['~'] + "document"@),
        option_parts("document"@) == (false, "document"@, Seq::<char>::empty()),
        option_parts(seq!['~'] + "document"@) == (true, "document"@, Seq::<char>::empty()),
{
    let s = "document"@;
    reveal_strlit("document");
    assert forall|i: int| 0 <= i < s.len() implies is_option_char(#[trigger] s[i]) by {
        if i == 0 {
        } else if i == 1 {
        } else if i == 2 {
        } else if i == 3 {
        } else if i == 4 {
        } else if i == 5 {
        } else if i == 6 {
        } else if i == 7 {
        }
    }
    lemma_bare_option(s);
}

/// The option `doc`.
pub proof fn lemma_doc()
    ensures
        "doc"@.len() == 3,
        is_option("doc"@),
        is_option(seq!['~'] + "doc"@),
        option_parts("doc"@) == (false, "doc"@, Seq::<char>::empty()),
        option_parts(seq!['~'] + "doc"@) == (true, "doc"@, Seq::<char>::empty()),
{
    let s = "doc"@;
    reveal_strlit("doc");
    assert forall|i: int| 0 <= i < s.len() implies is_option_char(#[trigger] s[i]) by {
        if i == 0 {
        } else if i == 1 {
        } else if i == 2 {
        }
    }
    lemma_bare_option(s);
}

/// The option `all`.
pub proof fn lemma_all()
    ensures
        "all"@.len() == 3,
        is_option("all"@),
        is_option(seq!['~'] + "all"@),
        option_parts("all"@) == (false, "all"@, Seq::<char>::empty()),
        option_parts(seq!['~'] + "all"@) == (true, "all"@, Seq::<char>::empty()),
{
    let s = "all"@;
    reveal_strlit("all");
    assert forall|i: int| 0 <= i < s.len() implies is_option_char(#[trigger] s[i]) by {
        if i == 0 {
        } else if i == 1 {
        } else if i == 2 {
        }
    }
    lemma_bare_option(s);
}

/// The option `image`.
pub proof fn lemma_image()
    ensures
        "image"@.len() == 5,
        is_option("image"@),
        is_option(seq!['~'] + "image"@),
        option_parts("image"@) == (false, "image"@, Seq::<char>::empty()),
        option_parts(seq!['~'] + "image"@) == (true, "image"@, Seq::<char>::empty()),
{
    let s = "image"@;
    reveal_strlit("image");
    assert forall|i: int| 0 <= i < s.len() implies is_option_char(#[trigger] s[i]) by {
        if i == 0 {
        } else if i == 1 {
        } else if i == 2 {
        } else if i == 3 {
        } else if i == 4 {
        }
    }
    lemma_bare_option(s);
}

/// The option `media`.
pub proof fn lemma_media()
    ensures
        "media"@.len() == 5,
        is_option("media"@),
        is_option(seq!['~'] + "media"@),
        option_parts("media"@) == (false, "media"@, Seq::<char>::empty()),
        option_parts(seq!['~'] + "media"@) == (true, "media"@, Seq::<char>::empty()),
{
    let s = "media"@;
    reveal_strlit("media");
    assert forall|i: int| 0 <= i < s.len() implies is_option_char(#[trigger] s[i]) by {
        if i == 0 {
        } else if i == 1 {
        } else if i == 2 {
        } else if i == 3 {
        } else if i == 4 {
        }
    }
    lemma_bare_option(s);
}

/// The option `object`.
pub proof fn lemma_object()
    ensures
        "object"@.len() == 6,
        is_option("object"@),
        is_option(seq!['~'] + "object"@),
        option_parts("object"@) == (false, "object"@, Seq::<char>::empty()),
        option_parts(seq!['~'] + "object"@) == (true, "object"@, Seq::<char>::empty()),
{
    let s = "object"@;
    reveal_strlit("object");
    assert forall|i: int| 0 <= i < s.len() implies is_option_char(#[trigger] s[i]) by {
        if i == 0 {
        } else if i == 1 {
        } else if i == 2 {
        } else if i == 3 {
        } else if i == 4 {
        } else if i == 5 {
        }
    }
    lemma_bare_option(s);
}

/// The option `object-subrequest`.
pub proof fn lemma_object_subrequest()
    ensures
        "object-subrequest"@.len() == 17,
        is_option("object-subrequest"@),
        is_option(seq!['~'] + "object-subrequest"@),
        option_parts("object-subrequest"@) == (false, "object-subrequest"@, Seq::<char>::empty()),
        option_parts(seq!['~'] + "object-subrequest"@) == (true, "object-subrequest"@, Seq::<char>::empty()),
{
    let s = "object-subrequest"@;
    reveal_strlit("object-subrequest");
    assert forall|i: int| 0 <= i < s.len() implies is_option_char(#[trigger] s[i]) by {
        if i == 0 {
        } else if i == 1 {
        } else if i == 2 {
        } else if i == 3 {
        } else if i == 4 {
        } else if i == 5 {
        } else if i == 6 {
        } else if i == 7 {
        } else if i == 8 {
        } else if i == 9 {
        } else if i == 10 {
        } else if i == 11 {
        } else if i == 12 {
        } else if i == 13 {
        } else if i == 14 {
        } else if i == 15 {
        } else if i == 16 {
        }
    }
    lemma_bare_option(s);
}

/// The option `other`.
pub proof fn lemma_other()
    ensures
        "other"@.len() == 5,
        is_option("other"@),
        is_option(seq!['~'] + "other"@),
        option_parts("other"@) == (false, "other"@, Seq::<char>::empty()),
        option_parts(seq!['~'] + "other"@) == (true, "other"@, Seq::<char>::empty()),
{
    let s = "other"@;
    reveal_strlit("other");
    assert forall|i: int| 0 <= i < s.len() implies is_option_char(#[trigger] s[i]) by {
        if i == 0 {
        } else if i == 1 {
        } else if i == 2 {
        } else if i == 3 {
        } else if i == 4 {
        }
    }
    lemma_bare_option(s);
}

/// The option `ping`.
pub proof fn lemma_ping()
    ensures
        "ping"@.len() == 4,
        is_option("ping"@),
        is_option(seq!['~'] + "ping"@),
        option_parts("ping"@) == (false, "ping"@, Seq::<char>::empty()),
        option_parts(seq!['~'] + "ping"@) == (true, "ping"@, Seq::<char>::empty()),
{
    let s = "ping"@;
    reveal_strlit("ping");
    assert forall|i: int| 0 <= i < s.len() implies is_option_char(#[trigger] s[i]) by {
        if i == 0 {
        } else if i == 1 {
        } else if i == 2 {
        } else if i == 3 {
        }
    }
    lemma_bare_option(s);
}

/// The option `beacon`.
pub proof fn lemma_beacon()
    ensures
        "beacon"@.len() == 6,
        is_option("beacon"@),
        is_option(seq!['~'] + "beacon"@),
        option_parts("beacon"@) == (false, "beacon"@, Seq::<char>::empty()),
        option_parts(seq!['~'] + "beacon"@) == (true, "beacon"@, Seq::<char>::empty()),
{
    let s = "beacon"@;
    reveal_strlit("beacon");
    assert forall|i: int| 0 <= i < s.len() implies is_option_char(#[trigger] s[i]) by {
        if i == 0 {
        } else if i == 1 {
        } else if i == 2 {
        } else if i == 3 {
        } else if i == 4 {
        } else if i == 5 {
        }
    }
    lemma_bare_option(s);
}

/// The option `script`.
pub proof fn lemma_script()
    ensures
        "script"@.len() == 6,
        is_option("script"@),
        is_option(seq!['~'] + "script"@),
        option_parts("script"@) == (false, "script"@, Seq::<char>::empty()),
        option_parts(seq!['~'] + "script"@) == (true, "script"@, Seq::<char>::empty()),
{
    let s = "script"@;
    reveal_strlit("script");
    assert forall|i: int| 0 <= i < s.len() implies is_option_char(#[trigger] s[i]) by {
        if i == 0 {
        } else if i == 1 {
        } else if i == 2 {
        } else if i == 3 {
        } else if i == 4 {
        } else if i == 5 {
        }
    }
    lemma_bare_option(s);
}

/// The option `stylesheet`.
pub proof fn lemma_stylesheet()
    ensures
        "stylesheet"@.len() == 10,
        is_option("stylesheet"@),
        is_option(seq!['~'] + "stylesheet"@),
        option_parts("stylesheet"@) == (false, "stylesheet"@, Seq::<char>::empty()),
        option_parts(seq!['~'] + "stylesheet"@) == (true, "stylesheet"@, Seq::<char>::empty()),
{
    let s = "stylesheet"@;
    reveal_strlit("stylesheet");
    assert forall|i: int| 0 <= i < s.len() implies is_option_char(#[trigger] s[i]) by {
        if i == 0 {
        } else if i == 1 {
        } else if i == 2 {
        } else if i == 3 {
        } else if i == 4 {
        } else if i == 5 {
        } else if i == 6 {
        } else if i == 7 {
        } else if i == 8 {
        } else if i == 9 {
        }
    }
    lemma_bare_option(s);
}

/// The option `css`.
pub proof fn lemma_css()
    ensures
        "css"@.len() == 3,
        is_option("css"@),
        is_option(seq!['~'] + "css"@),
        option_parts("css"@) == (false, "css"@, Seq::<char>::empty()),
        option_parts(seq!['~'] + "css"@) == (true, "css"@, Seq::<char>::empty()),
{
    let s = "css"@;
    reveal_strlit("css");
    assert forall|i: int| 0 <= i < s.len() implies is_option_char(#[trigger] s[i]) by {
        if i == 0 {
        } else if i == 1 {
        } else if i == 2 {
        }
    }
    lemma_bare_option(s);
}

/// The option `subdocument`.
pub proof fn lemma_subdocument()
    ensures
        "subdocument"@.len() == 11,
        is_option("subdocument"@),
        is_option(seq!['~'] + "subdocument"@),
        option_parts("subdocument"@) == (false, "subdocument"@, Seq::<char>::empty()),
        option_parts(seq!['~'] + "subdocument"@) == (true, "subdocument"@, Seq::<char>::empty()),
{
    let s = "subdocument"@;
    reveal_strlit("subdocument");
    assert forall|i: int| 0 <= i < s.len() implies is_option_char(#[trigger] s[i]) by {
        if i == 0 {
        } else if i == 1 {
        } else if i == 2 {
        } else if i == 3 {
        } else if i == 4 {
        } else if i == 5 {
        } else if i == 6 {
        } else if i == 7 {
        } else if i == 8 {
        } else if i == 9 {
        } else if i == 10 {
        }
    }
    lemma_bare_option(s);
}

/// The option `frame`.
pub proof fn lemma_frame()
    ensures
        "frame"@.len() == 5,
        is_option("frame"@),
        is_option(seq!['~'] + "frame"@),
        option_parts("frame"@) == (false, "frame"@, Seq::<char>::empty()),
        option_parts(seq!['~'] + "frame"@) == (true, "frame"@, Seq::<char>::empty()),
{
    let s = "frame"@;
    reveal_strlit("frame");
    assert forall|i: int| 0 <= i < s.len() implies is_option_char(#[trigger] s[i]) by {
        if i == 0 {
        } else if i == 1 {
        } else if i == 2 {
        } else if i == 3 {
        } else if i == 4 {
        }
    }
    lemma_bare_option(s);
}

/// The option `xmlhttprequest`.
pub proof fn lemma_xmlhttprequest()
    ensures
        "xmlhttprequest"@.len() == 14,
        is_option("xmlhttprequest"@),
        is_option(seq!['~'] + "xmlhttprequest"@),
        option_parts("xmlhttprequest"@) == (false, "xmlhttprequest"@, Seq::<char>::empty()),
        option_parts(seq!['~'] + "xmlhttprequest"@) == (true, "xmlhttprequest"@, Seq::<char>::empty()),
{
    let s = "xmlhttprequest"@;
    reveal_strlit("xmlhttprequest");
    assert forall|i: int| 0 <= i < s.len() implies is_option_char(#[trigger] s[i]) by {
        if i == 0 {
        } else if i == 1 {
        } else if i == 2 {
        } else if i == 3 {
        } else if i == 4 {
        } else if i == 5 {
        } else if i == 6 {
        } else if i == 7 {
        } else if i == 8 {
        } else if i == 9 {
        } else if i == 10 {
        } else if i == 11 {
        } else if i == 12 {
        } else if i == 13 {
        }
    }
    lemma_bare_option(s);
}

/// The option `xhr`.
pub proof fn lemma_xhr()
    ensures
        "xhr"@.len() == 3,
        is_option("xhr"@),
        is_option(seq!['~'] + "xhr"@),
        option_parts("xhr"@) == (false, "xhr"@, Seq::<char>::empty()),
        option_parts(seq!['~'] + "xhr"@) == (true, "xhr"@, Seq::<char>::empty()),
{
    let s = "xhr"@;
    reveal_strlit("xhr");
    assert forall|i: int| 0 <= i < s.len() implies is_option_char(#[trigger] s[i]) by {
        if i == 0 {
        } else if i == 1 {
        } else if i == 2 {
        }
    }
    lemma_bare_option(s);
}

/// The option `websocket`.
pub proof fn lemma_websocket()
    ensures
        "websocket"@.len() == 9,
        is_option("websocket"@),
        is_option(seq!['~'] + "websocket"@),
        option_parts("websocket"@) == (false, "websocket"@, Seq::<char>::empty()),
        option_parts(seq!['~'] + "websocket"@) == (true, "websocket"@, Seq::<char>::empty()),
{
    let s = "websocket"@;
    reveal_strlit("websocket");
    assert forall|i: int| 0 <= i < s.len() implies is_option_char(#[trigger] s[i]) by {
        if i == 0 {
        } else if i == 1 {
        } else if i == 2 {
        } else if i == 3 {
        } else if i == 4 {
        } else if i == 5 {
        } else if i == 6 {
        } else if i == 7 {
        } else if i == 8 {
        }
    }
    lemma_bare_option(s);
}

/// The option `font`.
pub proof fn lemma_font()
    ensures
        "font"@.len() == 4,
        is_option("font"@),
        is_option(seq!['~'] + "font"@),
        option_parts("font"@) == (false, "font"@, Seq::<char>::empty()),
        option_parts(seq!['~'] + "font"@) == (true, "font"@, Seq::<char>::empty()),
{
    let s = "font"@;
    reveal_strlit("font");
    assert forall|i: int| 0 <= i < s.len() implies is_option_char(#[trigger] s[i]) by {
        if i == 0 {
        } else if i == 1 {
        } else if i == 2 {
        } else if i == 3 {
        }
    }
    lemma_bare_option(s);
}

/// The option `tag`.
pub proof fn lemma_tag()
    ensures
        "tag"@.len() == 3,
        is_option("tag"@),
        is_option(seq!['~'] + "tag"@),
        option_parts("tag"@) == (false, "tag"@, Seq::<char>::empty()),
        option_parts(seq!['~'] + "tag"@) == (true, "tag"@, Seq::<char>::empty()),
{
    let s = "tag"@;
    reveal_strlit("tag");
    assert forall|i: int| 0 <= i < s.len() implies is_option_char(#[trigger] s[i]) by {
        if i == 0 {
        } else if i == 1 {
        } else if i == 2 {
        }
    }
    lemma_bare_option(s);
}

/// The option `csp`.
pub proof fn lemma_csp()
    ensures
        "csp"@.len() == 3,
        is_option("csp"@),
        is_option(seq!['~'] + "csp"@),
        option_parts("csp"@) == (false, "csp"@, Seq::<char>::empty()),
        option_parts(seq!['~'] + "csp"@) == (true, "csp"@, Seq::<char>::empty()),
{
    let s = "csp"@;
    reveal_strlit("csp");
    assert forall|i: int| 0 <= i < s.len() implies is_option_char(#[trigger] s[i]) by {
        if i == 0 {
        } else if i == 1 {
        } else if i == 2 {
        }
    }
    lemma_bare_option(s);
}

/// The option `domain`.
pub proof fn lemma_domain()
    ensures
        "domain"@.len() == 6,
        is_option("domain"@),
        is_option(seq!['~'] + "domain"@),
        option_parts("domain"@) == (false, "domain"@, Seq::<char>::empty()),
        option_parts(seq!['~'] + "domain"@) == (true, "domain"@, Seq::<char>::empty()),
{
    let s = "domain"@;
    reveal_strlit("domain");
    assert forall|i: int| 0 <= i < s.len() implies is_option_char(#[trigger] s[i]) by {
        if i == 0 {
        } else if i == 1 {
        } else if i == 2 {
        } else if i == 3 {
        } else if i == 4 {
        } else if i == 5 {
        }
    }
    lemma_bare_option(s);
}

/// The option `from`.
pub proof fn lemma_from()
    ensures
        "from"@.len() == 4,
        is_option("from"@),
        is_option(seq!['~'] + "from"@),
        option_parts("from"@) == (false, "from"@, Seq::<char>::empty()),
        option_parts(seq!['~'] + "from"@) == (true, "from"@, Seq::<char>::empty()),
{
    let s = "from"@;
    reveal_strlit("from");
    assert forall|i: int| 0 <= i < s.len() implies is_option_char(#[trigger] s[i]) by {
        if i == 0 {
        } else if i == 1 {
        } else if i == 2 {
        } else if i == 3 {
        }
    }
    lemma_bare_option(s);
}

/// The option `redirect`.
pub proof fn lemma_redirect()
    ensures
        "redirect"@.len() == 8,
        is_option("redirect"@),
        is_option(seq!['~'] + "redirect"@),
        option_parts("redirect"@) == (false, "redirect"@, Seq::<char>::empty()),
        option_parts(seq!['~'] + "redirect"@) == (true, "redirect"@, Seq::<char>::empty()),
{
    let s = "redirect"@;
    reveal_strlit("redirect");
    assert forall|i: int| 0 <= i < s.len() implies is_option_char(#[trigger] s[i]) by {
        if i == 0 {
        } else if i == 1 {
        } else if i == 2 {
        } else if i == 3 {
        } else if i == 4 {
        } else if i == 5 {
        } else if i == 6 {
        } else if i == 7 {
        }
    }
    lemma_bare_option(s);
}

/// The option `redirect-rule`.
pub proof fn lemma_redirect_rule()
    ensures
        "redirect-rule"@.len() == 13,
        is_option("redirect-rule"@),
        is_option(seq!['~'] + "redirect-rule"@),
        option_parts("redirect-rule"@) == (false, "redirect-rule"@, Seq::<char>::empty()),
        option_parts(seq!['~'] + "redirect-rule"@) == (true, "redirect-rule"@, Seq::<char>::empty()),
{
    let s = "redirect-rule"@;
    reveal_strlit("redirect-rule");
    assert forall|i: int| 0 <= i < s.len() implies is_option_char(#[trigger] s[i]) by {
        if i == 0 {
        } else if i == 1 {
        } else if i == 2 {
        } else if i == 3 {
        } else if i == 4 {
        } else if i == 5 {
        } else if i == 6 {
        } else if i == 7 {
        } else if i == 8 {
        } else if i == 9 {
        } else if i == 10 {
        } else if i == 11 {
        } else if i == 12 {
        }
    }
    lemma_bare_option(s);
}

/// No two names of options are the same.
pub proof fn lemma_names_differ()
    ensures
        "badfilter"@.len() == 9,
        "important"@.len() == 9,
        "match-case"@.len() == 10,
        "third-party"@.len() == 11,
        "3p"@.len() == 2,
        "first-party"@.len() == 11,
        "1p"@.len() == 2,
        "generichide"@.len() == 11,
        "ghide"@.len() == 5,
        "document"@.len() == 8,
        "doc"@.len() == 3,
        "all"@.len() == 3,
        "image"@.len() == 5,
        "media"@.len() == 5,
        "object"@.len() == 6,
        "object-subrequest"@.len() == 17,
        "other"@.len() == 5,
        "ping"@.len() == 4,
        "beacon"@.len() == 6,
        "script"@.len() == 6,
        "stylesheet"@.len() == 10,
        "css"@.len() == 3,
        "subdocument"@.len() == 11,
        "frame"@.len() == 5,
        "xmlhttprequest"@.len() == 14,
        "xhr"@.len() == 3,
        "websocket"@.len() == 9,
        "font"@.len() == 4,
        "tag"@.len() == 3,
        "csp"@.len() == 3,
        "domain"@.len() == 6,
        "from"@.len() == 4,
        "redirect"@.len() == 8,
        "redirect-rule"@.len() == 13,
        "badfilter"@ != "important"@,
        "badfilter"@ != "websocket"@,
        "important"@ != "websocket"@,
        "match-case"@ != "stylesheet"@,
        "third-party"@ != "first-party"@,
        "third-party"@ != "generichide"@,
        "third-party"@ != "subdocument"@,
        "3p"@ != "1p"@,
        "first-party"@ != "generichide"@,
        "first-party"@ != "subdocument"@,
        "generichide"@ != "subdocument"@,
        "ghide"@ != "image"@,
        "ghide"@ != "media"@,
        "ghide"@ != "other"@,
        "ghide"@ != "frame"@,
        "document"@ != "redirect"@,
        "doc"@ != "all"@,
        "doc"@ != "css"@,
        "doc"@ != "xhr"@,
        "doc"@ != "tag"@,
        "doc"@ != "csp"@,
        "all"@ != "css"@,
        "all"@ != "xhr"@,
        "all"@ != "tag"@,
        "all"@ != "csp"@,
        "image"@ != "media"@,
        "image"@ != "other"@,
        "image"@ != "frame"@,
        "media"@ != "other"@,
        "media"@ != "frame"@,
        "object"@ != "beacon"@,
        "object"@ != "script"@,
        "object"@ != "domain"@,
        "other"@ != "frame"@,
        "ping"@ != "font"@,
        "ping"@ != "from"@,
        "beacon"@ != "script"@,
        "beacon"@ != "domain"@,
        "script"@ != "domain"@,
        "css"@ != "xhr"@,
        "css"@ != "tag"@,
        "css"@ != "csp"@,
        "xhr"@ != "tag"@,
        "xhr"@ != "csp"@,
        "font"@ != "from"@,
        "tag"@ != "csp"@,
{
    reveal_strlit("badfilter");
    reveal_strlit("important");
    reveal_strlit("match-case");
    reveal_strlit("third-party");
    reveal_strlit("3p");
    reveal_strlit("first-party");
    reveal_strlit("1p");
    reveal_strlit("generichide");
    reveal_strlit("ghide");
    reveal_strlit("document");
    reveal_strlit("doc");
    reveal_strlit("all");
    reveal_strlit("image");
    reveal_strlit("media");
    reveal_strlit("object");
    reveal_strlit("object-subrequest");
    reveal_strlit("other");
    reveal_strlit("ping");
    reveal_strlit("beacon");
    reveal_strlit("script");
    reveal_strlit("stylesheet");
    reveal_strlit("css");
    reveal_strlit("subdocument");
    reveal_strlit("frame");
    reveal_strlit("xmlhttprequest");
    reveal_strlit("xhr");
    reveal_strlit("websocket");
    reveal_strlit("font");
    reveal_strlit("tag");
    reveal_strlit("csp");
    reveal_strlit("domain");
    reveal_strlit("from");
    reveal_strlit("redirect");
    reveal_strlit("redirect-rule");
    assert("badfilter"@[0] != "important"@[0]);
    assert("badfilter"@[0] != "websocket"@[0]);
    assert("important"@[0] != "websocket"@[0]);
    assert("match-case"@[0] != "stylesheet"@[0]);
    assert("third-party"@[0] != "first-party"@[0]);
    assert("third-party"@[0] != "generichide"@[0]);
    assert("third-party"@[0] != "subdocument"@[0]);
    assert("3p"@[0] != "1p"@[0]);
    assert("first-party"@[0] != "generichide"@[0]);
    assert("first-party"@[0] != "subdocument"@[0]);
    assert("generichide"@[0] != "subdocument"@[0]);
    assert("ghide"@[0] != "image"@[0]);
    assert("ghide"@[0] != "media"@[0]);
    assert("ghide"@[0] != "other"@[0]);
    assert("ghide"@[0] != "frame"@[0]);
    assert("document"@[0] != "redirect"@[0]);
    assert("doc"@[0] != "all"@[0]);
    assert("doc"@[0] != "css"@[0]);
    assert("doc"@[0] != "xhr"@[0]);
    assert("doc"@[0] != "tag"@[0]);
    assert("doc"@[0] != "csp"@[0]);
    assert("all"@[0] != "css"@[0]);
    assert("all"@[0] != "xhr"@[0]);
    assert("all"@[0] != "tag"@[0]);
    assert("all"@[0] != "csp"@[0]);
    assert("image"@[0] != "media"@[0]);
    assert("image"@[0] != "other"@[0]);
    assert("image"@[0] != "frame"@[0]);
    assert("media"@[0] != "other"@[0]);
    assert("media"@[0] != "frame"@[0]);
    assert("object"@[0] != "beacon"@[0]);
    assert("object"@[0] != "script"@[0]);
    assert("object"@[0] != "domain"@[0]);
    assert("other"@[0] != "frame"@[0]);
    assert("ping"@[0] != "font"@[0]);
    assert("ping"@[0] != "from"@[0]);
    assert("beacon"@[0] != "script"@[0]);
    assert("beacon"@[0] != "domain"@[0]);
    assert("script"@[0] != "domain"@[0]);
    assert("css"@[0] != "xhr"@[0]);
    assert("css"@[0] != "tag"@[0]);
    assert("css"@[2] != "csp"@[2]);
    assert("xhr"@[0] != "tag"@[0]);
    assert("xhr"@[0] != "csp"@[0]);
    assert("font"@[1] != "from"@[1]);
    assert("tag"@[0] != "csp"@[0]);
}

} // verus!
