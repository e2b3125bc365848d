//! What holds of resources: what they answer with, and how a script is called.

use vstd::prelude::*;
use vstd::utf8::valid_utf8;

use crate::directory::in_force;
use crate::engine::EngineModel;
use crate::outside::base64_bytes;
use crate::resources::{
    filled, placeholder, script_name, scriptlet_call, AddResourceError, MimeType, ResourceModel,
    ResourceType,
};
use crate::text::{join, replace, split, trim};
use crate::text_laws::{first_occurrence_is_replaced, joined_texts_are_split, nothing_to_replace};

verus! {

/// The media type that a resource is sent under.
pub open spec fn media_type(mime: MimeType) -> Seq<char> {
    match mime {
        MimeType::ImageGif => "image/gif"@,
        MimeType::ImagePng => "image/png"@,
        MimeType::TextHtml => "text/html"@,
        MimeType::TextPlain => "text/plain"@,
        MimeType::ApplicationJavascript => "application/javascript"@,
        MimeType::AudioMp3 => "audio/mp3"@,
        MimeType::VideoMp4 => "video/mp4"@,
        MimeType::Unknown => "application/octet-stream"@,
    }
}

/// A resource of a media type answers with its contents, under that type.
pub proof fn resources_answer_with_their_contents(resource: ResourceModel, mime: MimeType)
    requires
        resource.kind == ResourceType::Mime(mime),
    ensures
        resource.answer().content_type == media_type(mime),
        resource.answer().data == resource.content,
{
}

/// A resource is refused if its contents are no Base64; and if they are to be text, which
/// those of templates, scripts, pages and plain texts are, and are no UTF-8. No other is.
pub proof fn flawed_resources(resource: ResourceModel)
    ensures
        ({
            let textual = resource.kind is Template || resource.kind == ResourceType::Mime(
                MimeType::ApplicationJavascript,
            ) || resource.kind == ResourceType::Mime(MimeType::TextHtml) || resource.kind
                == ResourceType::Mime(MimeType::TextPlain);
            resource.flaw() == match base64_bytes(resource.content) {
                None => Some(AddResourceError::InvalidBase64Content),
                Some(bytes) => if textual && !valid_utf8(bytes) {
                    Some(AddResourceError::InvalidUtf8Content)
                } else {
                    None
                },
            }
        }),
        resource.is_scriptlet() <==> resource.kind is Template || resource.kind
            == ResourceType::Mime(MimeType::ApplicationJavascript),
{
}

/// A script goes by its name without the ending `.js`.
pub proof fn script_names(name: Seq<char>)
    ensures
        script_name(name + seq!['.', 'j', 's']) == name,
        !seq!['.', 'j', 's'].is_suffix_of(name) ==> script_name(name) == name,
{
    reveal_strlit(".js");
    assert(".js"@ =~= seq!['.', 'j', 's']);
    let long = name + seq!['.', 'j', 's'];
    assert(long.subrange(long.len() - 3, long.len() as int) =~= seq!['.', 'j', 's']);
    assert(long.take(long.len() - 3) =~= name);
}

/// A template of pieces with placeholders between them, of which the first `k` are filled.
pub open spec fn template(
    pieces: Seq<Seq<char>>,
    args: Seq<Seq<char>>,
    k: nat,
    n: nat,
) -> Seq<char>
    decreases n,
{
    if n == 0 {
        pieces[0]
    } else {
        template(pieces, args, k, (n - 1) as nat) + (if n <= k {
            args[n - 1]
        } else {
            seq!['{', '{', (48 + n) as char, '}', '}']
        }) + pieces[n as int]
    }
}

/// What follows the filled part of a template.
spec fn unfilled(pieces: Seq<Seq<char>>, k: nat, n: nat) -> Seq<char>
    decreases n,
{
    if n <= k {
        Seq::empty()
    } else {
        unfilled(pieces, k, (n - 1) as nat) + seq!['{', '{', (48 + n) as char, '}', '}'] + pieces[
            n as int]
    }
}

proof fn lemma_template(pieces: Seq<Seq<char>>, args: Seq<Seq<char>>, k: nat, n: nat)
    requires
        k <= n,
    ensures
        template(pieces, args, k, n) == template(pieces, args, k, k) + unfilled(pieces, k, n),
    decreases n,
{
    if k == n {
        assert(template(pieces, args, k, k) + unfilled(pieces, k, n) =~= template(
            pieces,
            args,
            k,
            k,
        ));
    } else {
        lemma_template(pieces, args, k, (n - 1) as nat);
        assert(template(pieces, args, k, n) =~= template(pieces, args, k, k) + unfilled(
            pieces,
            k,
            n,
        ));
    }
}

/// To fill one more does not change those before.
proof fn lemma_same_front(pieces: Seq<Seq<char>>, args: Seq<Seq<char>>, k: nat, m: nat, n: nat)
    requires
        n <= k && n <= m,
    ensures
        template(pieces, args, k, n) == template(pieces, args, m, n),
    decreases n,
{
    if n > 0 {
        lemma_same_front(pieces, args, k, m, (n - 1) as nat);
    }
}

proof fn lemma_filled_front(pieces: Seq<Seq<char>>, args: Seq<Seq<char>>, k: nat, n: nat)
    requires
        n <= k,
        n < pieces.len(),
        n <= args.len(),
        forall|i: int| 0 <= i < pieces.len() ==> !(#[trigger] pieces[i]).contains('{'),
        forall|i: int| 0 <= i < args.len() ==> !(#[trigger] args[i]).contains('{'),
    ensures
        !template(pieces, args, k, n).contains('{'),
    decreases n,
{
    let t = template(pieces, args, k, n);
    if n == 0 {
        assert(!pieces[0].contains('{'));
    } else {
        lemma_filled_front(pieces, args, k, (n - 1) as nat);
        let a = template(pieces, args, k, (n - 1) as nat);
        let b = args[n - 1];
        let c = pieces[n as int];
        assert(t == a + b + c);
        if t.contains('{') {
            let i = choose|i: int| 0 <= i < t.len() && t[i] == '{';
            if i < a.len() {
                assert(a[i] == '{');
            } else if i < a.len() + b.len() {
                assert(b[i - a.len()] == '{');
            } else {
                assert(c[i - a.len() - b.len()] == '{');
            }
        }
    }
}

/// In what is not filled a brace opens a placeholder of a later number, and ends in it.
proof fn lemma_open(pieces: Seq<Seq<char>>, k: nat, n: nat, i: int)
    requires
        n <= 9,
        n < pieces.len(),
        forall|j: int| 0 <= j < pieces.len() ==> !(#[trigger] pieces[j]).contains('{'),
        0 <= i < unfilled(pieces, k, n).len(),
        unfilled(pieces, k, n)[i] == '{',
    ensures
        i + 3 < unfilled(pieces, k, n).len(),
        k <= 9 && unfilled(pieces, k, n)[i + 1] == '{' ==> unfilled(pieces, k, n)[i + 2] != (48
            + k) as char,
    decreases n,
{
    let all = unfilled(pieces, k, n);
    if n > k {
        let a = unfilled(pieces, k, (n - 1) as nat);
        let b = seq!['{', '{', (48 + n) as char, '}', '}'];
        let c = pieces[n as int];
        let l = a.len() as int;
        assert(all == a + b + c);
        assert(all[l] == b[0] && all[l + 1] == b[1] && all[l + 2] == b[2] && all[l + 3] == b[3]
            && all[l + 4] == b[4]);
        if k <= 9 {
            lemma_digits(k as int, n as int);
        }
        if i < l {
            assert(a[i] == '{');
            lemma_open(pieces, k, (n - 1) as nat, i);
            assert(all[i + 1] == a[i + 1] && all[i + 2] == a[i + 2]);
        } else if i >= l + 5 {
            assert(c[i - l - 5] == '{');
            assert(c.contains('{'));
        }
    }
}

proof fn lemma_digits(k: int, n: int)
    requires
        0 <= k <= 9,
        0 < n <= 9,
        k != n,
    ensures
        (48 + k) as char != (48 + n) as char,
        (48 + n) as char != '{',
        (48 + n) as char != '}',
{
}

/// The unfilled part of a template starts with the next placeholder.
proof fn lemma_next(pieces: Seq<Seq<char>>, k: nat, n: nat)
    requires
        0 < k <= n,
    ensures
        unfilled(pieces, (k - 1) as nat, n) == seq!['{', '{', (48 + k) as char, '}', '}'] + (
        pieces[k as int] + unfilled(pieces, k, n)),
    decreases n,
{
    let b = seq!['{', '{', (48 + k) as char, '}', '}'];
    if n == k {
        assert(unfilled(pieces, (k - 1) as nat, (n - 1) as nat) =~= Seq::empty());
        assert(unfilled(pieces, (k - 1) as nat, n) =~= b + (pieces[k as int] + unfilled(
            pieces,
            k,
            n,
        )));
    } else {
        lemma_next(pieces, k, (n - 1) as nat);
        assert(unfilled(pieces, (k - 1) as nat, n) =~= b + (pieces[k as int] + unfilled(
            pieces,
            k,
            n,
        )));
    }
}

/// To fill the next placeholder of a template is to replace it.
proof fn lemma_fill_one(pieces: Seq<Seq<char>>, args: Seq<Seq<char>>, k: nat, n: nat)
    requires
        0 < k <= n <= 9,
        pieces.len() == n + 1,
        args.len() == n,
        forall|i: int| 0 <= i < pieces.len() ==> !(#[trigger] pieces[i]).contains('{'),
        forall|i: int| 0 <= i < args.len() ==> !(#[trigger] args[i]).contains('{'),
    ensures
        replace(
            template(pieces, args, (k - 1) as nat, n),
            placeholder(k as int),
            args[k - 1],
        ) == template(pieces, args, k, n),
{
    let j = (k - 1) as nat;
    let needle = placeholder(k as int);
    let before = template(pieces, args, j, j);
    let after = pieces[k as int] + unfilled(pieces, k, n);
    let s = before + needle + after;
    lemma_template(pieces, args, j, n);
    lemma_template(pieces, args, k, n);
    lemma_next(pieces, k, n);
    assert(needle =~= seq!['{', '{', (48 + k) as char, '}', '}']);
    assert(template(pieces, args, j, n) =~= s);
    lemma_filled_front(pieces, args, j, j);
    assert(needle[0] == '{' && needle[1] == '{' && needle[2] == (48 + k) as char);
    assert forall|i: int| 0 <= i < before.len() implies !needle.is_prefix_of(
        #[trigger] s.skip(i),
    ) by {
        if needle.is_prefix_of(s.skip(i)) {
            assert(s.skip(i).subrange(0, 5)[0] == s[i]);
            assert(before[i] == '{');
        }
    }
    first_occurrence_is_replaced(before, needle, after, args[k - 1]);
    let piece = pieces[k as int];
    assert(!piece.contains('{'));
    assert forall|i: int| 0 <= i <= after.len() implies !needle.is_prefix_of(
        #[trigger] after.skip(i),
    ) by {
        if needle.is_prefix_of(after.skip(i)) {
            let found = after.skip(i).subrange(0, 5);
            assert(found[0] == after[i] && found[1] == after[i + 1] && found[2] == after[i + 2]);
            if i < piece.len() {
                assert(piece[i] == '{');
            } else {
                let m = i - piece.len();
                let rest = unfilled(pieces, k, n);
                assert(rest[m] == '{' && rest[m + 1] == '{' && rest[m + 2] == (48 + k) as char);
                lemma_open(pieces, k, n, m);
            }
        }
    }
    nothing_to_replace(after, needle, args[k - 1]);
    lemma_same_front(pieces, args, j, k, j);
    assert(template(pieces, args, k, k) == template(pieces, args, k, j) + args[k - 1] + piece);
    assert(before + args[k - 1] + after =~= template(pieces, args, k, k) + unfilled(pieces, k, n));
}

proof fn lemma_filled(
    pieces: Seq<Seq<char>>,
    args: Seq<Seq<char>>,
    given: Seq<Seq<char>>,
    k: nat,
    n: nat,
)
    requires
        k <= n <= 9,
        pieces.len() == n + 1,
        args.len() == n,
        given.len() == n + 1,
        forall|i: int| 0 <= i < n ==> given[i + 1] == #[trigger] args[i],
        forall|i: int| 0 <= i < pieces.len() ==> !(#[trigger] pieces[i]).contains('{'),
        forall|i: int| 0 <= i < args.len() ==> !(#[trigger] args[i]).contains('{'),
    ensures
        filled(template(pieces, args, 0, n), given, k) == template(pieces, args, k, n),
    decreases k,
{
    if k > 0 {
        lemma_filled(pieces, args, given, (k - 1) as nat, n);
        lemma_fill_one(pieces, args, k, n);
        assert(args[k - 1] == given[k as int]);
    }
}

/// A call of a script by its name, with or without the ending `.js`, with arguments behind
/// commas, gives the script with each of its placeholders filled by its argument: the first
/// by the first, and so on. White space around the arguments does not count.
pub proof fn arguments_fill_placeholders(
    map: Map<Seq<char>, Seq<char>>,
    raw: Seq<Seq<char>>,
    name: Seq<char>,
    pieces: Seq<Seq<char>>,
    args: Seq<Seq<char>>,
)
    requires
        args.len() <= 9,
        pieces.len() == args.len() + 1,
        raw.len() == args.len() + 1,
        forall|i: int| 0 <= i < raw.len() ==> !(#[trigger] raw[i]).contains(','),
        trim(raw[0]) == name || trim(raw[0]) == name + seq!['.', 'j', 's'],
        !seq!['.', 'j', 's'].is_suffix_of(name),
        forall|i: int| 0 <= i < args.len() ==> trim(raw[i + 1]) == #[trigger] args[i],
        forall|i: int| 0 <= i < pieces.len() ==> !(#[trigger] pieces[i]).contains('{'),
        forall|i: int| 0 <= i < args.len() ==> !(#[trigger] args[i]).contains('{'),
        map.contains_key(name),
        map[name] == template(pieces, args, 0, args.len()),
    ensures
        scriptlet_call(map, join(raw, seq![','])) == Some(
            template(pieces, args, args.len(), args.len()),
        ),
{
    let call = join(raw, seq![',']);
    let given = split(call, ',').map_values(|a: Seq<char>| trim(a));
    joined_texts_are_split(raw, ',');
    assert(given.len() == raw.len());
    assert(given[0] == trim(raw[0]));
    script_names(name);
    assert forall|i: int| 0 <= i < args.len() implies given[i + 1] == #[trigger] args[i] by {
        assert(given[i + 1] == trim(raw[i + 1]));
    }
    lemma_filled(pieces, args, given, args.len(), args.len());
}

/// A call of a script that is not there gives none.
pub proof fn unknown_scripts_are_not_called(map: Map<Seq<char>, Seq<char>>, raw: Seq<Seq<char>>)
    requires
        raw.len() > 0,
        forall|i: int| 0 <= i < raw.len() ==> !(#[trigger] raw[i]).contains(','),
        !seq!['.', 'j', 's'].is_suffix_of(trim(raw[0])),
        !map.contains_key(trim(raw[0])),
    ensures
        scriptlet_call(map, join(raw, seq![','])) is None,
{
    let call = join(raw, seq![',']);
    let given = split(call, ',').map_values(|a: Seq<char>| trim(a));
    joined_texts_are_split(raw, ',');
    assert(given[0] == trim(raw[0]));
    script_names(trim(raw[0]));
}

/// Of values under one name the last counts, and none is under a name that was not given.
pub proof fn the_last_value_counts<T>(pairs: Seq<(Seq<char>, T)>, name: Seq<char>, i: int)
    requires
        0 <= i < pairs.len(),
        forall|j: int| i < j < pairs.len() ==> (#[trigger] pairs[j]).0 != pairs[i].0,
    ensures
        in_force(pairs).contains_key(pairs[i].0),
        in_force(pairs)[pairs[i].0] == pairs[i].1,
        (forall|j: int| 0 <= j < pairs.len() ==> (#[trigger] pairs[j]).0 != name)
            ==> !in_force(pairs).contains_key(name),
    decreases pairs.len(),
{
    let front = pairs.drop_last();
    lemma_no_value(pairs, name);
    if i < front.len() {
        assert forall|j: int| i < j < front.len() implies (#[trigger] front[j]).0 != front[i].0 by {
            assert(front[j] == pairs[j]);
        }
        the_last_value_counts(front, name, i);
        assert(pairs[pairs.len() - 1].0 != pairs[i].0);
    }
}

proof fn lemma_no_value<T>(pairs: Seq<(Seq<char>, T)>, name: Seq<char>)
    ensures
        (forall|j: int| 0 <= j < pairs.len() ==> (#[trigger] pairs[j]).0 != name)
            ==> !in_force(pairs).contains_key(name),
    decreases pairs.len(),
{
    if pairs.len() > 0 {
        let front = pairs.drop_last();
        lemma_no_value(front, name);
        if forall|j: int| 0 <= j < pairs.len() ==> (#[trigger] pairs[j]).0 != name {
            assert forall|j: int| 0 <= j < front.len() implies (#[trigger] front[j]).0 != name by {
                assert(front[j] == pairs[j]);
            }
            assert(pairs[pairs.len() - 1].0 != name);
        }
    }
}

/// A template answers no request, and a resource that is neither a template nor a script is
/// not called.
pub proof fn resources_have_their_use(engine: EngineModel, resource: ResourceModel)
    ensures
        resource.kind is Template ==> engine.with_resource(resource).blocker == engine.blocker,
        resource.kind matches ResourceType::Mime(mime) && !(mime is ApplicationJavascript)
            ==> engine.with_resource(resource).cosmetics == engine.cosmetics,
{
}

} // verus!
