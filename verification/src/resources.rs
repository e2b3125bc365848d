//! Resources: what blocked requests are answered with, and the scripts that
//! cosmetic rules inject.

use vstd::prelude::*;
use vstd::utf8::{decode_utf8, valid_utf8};

use crate::directory::Directory;
use crate::outside::{base64_bytes, base64_decode, opt_bytes, text_of_utf8};
use crate::text::{
    chars_of, ends_with, replace, replace_all, split, split_at, string_of, strings, texts, trim,
    trimmed,
};

verus! {

/// The media type of a resource.
#[derive(Clone, Copy, Debug, PartialEq, Eq, Structural)]
pub enum MimeType {
    ImageGif,
    TextHtml,
    ApplicationJavascript,
    AudioMp3,
    VideoMp4,
    ImagePng,
    TextPlain,
    Unknown,
}

impl MimeType {
    /// The name of the media type.
    pub open spec fn name(self) -> Seq<char> {
        match self {
            MimeType::ImageGif => "image/gif"@,
            MimeType::TextHtml => "text/html"@,
            MimeType::ApplicationJavascript => "application/javascript"@,
            MimeType::AudioMp3 => "audio/mp3"@,
            MimeType::VideoMp4 => "video/mp4"@,
            MimeType::ImagePng => "image/png"@,
            MimeType::TextPlain => "text/plain"@,
            MimeType::Unknown => "application/octet-stream"@,
        }
    }

    /// Whether resources of the type hold text.
    pub open spec fn is_textual(self) -> bool {
        self is TextHtml || self is ApplicationJavascript || self is TextPlain
    }

    fn to_name(&self) -> (r: String)
        ensures
            r@ == self.name(),
    {
        match self {
            MimeType::ImageGif => "image/gif".to_owned(),
            MimeType::TextHtml => "text/html".to_owned(),
            MimeType::ApplicationJavascript => "application/javascript".to_owned(),
            MimeType::AudioMp3 => "audio/mp3".to_owned(),
            MimeType::VideoMp4 => "video/mp4".to_owned(),
            MimeType::ImagePng => "image/png".to_owned(),
            MimeType::TextPlain => "text/plain".to_owned(),
            MimeType::Unknown => "application/octet-stream".to_owned(),
        }
    }
}

/// What a resource is for.
#[derive(Clone, Copy, Debug, PartialEq, Eq, Structural)]
pub enum ResourceType {
    /// An answer to requests, of a media type. A script can be injected, too.
    Mime(MimeType),
    /// A script with placeholders, to be injected.
    Template,
}

/// A resource.
#[derive(Debug)]
pub struct Resource {
    pub name: String,
    /// Other names that the resource goes by.
    pub aliases: Vec<String>,
    pub kind: ResourceType,
    /// The contents, in Base64.
    pub content: String,
}

/// A resource.
pub struct ResourceModel {
    pub name: Seq<char>,
    pub aliases: Seq<Seq<char>>,
    pub kind: ResourceType,
    pub content: Seq<char>,
}

impl View for Resource {
    type V = ResourceModel;

    open spec fn view(&self) -> ResourceModel {
        ResourceModel {
            name: self.name@,
            aliases: strings(self.aliases@),
            kind: self.kind,
            content: self.content@,
        }
    }
}

/// The resources of a list.
pub open spec fn resource_models(resources: Seq<Resource>) -> Seq<ResourceModel> {
    resources.map_values(|r: Resource| r@)
}

/// Why a resource is refused.
#[derive(Clone, Copy, Debug, PartialEq, Eq, Structural)]
pub enum AddResourceError {
    InvalidBase64Content,
    InvalidUtf8Content,
}

/// What a request is answered with: a media type and contents in Base64.
#[derive(Debug, PartialEq, Eq)]
pub struct RedirectResource {
    pub content_type: String,
    pub data: String,
}

/// What a request is answered with.
#[verifier::ext_equal]
pub struct RedirectModel {
    pub content_type: Seq<char>,
    pub data: Seq<char>,
}

impl View for RedirectResource {
    type V = RedirectModel;

    open spec fn view(&self) -> RedirectModel {
        RedirectModel { content_type: self.content_type@, data: self.data@ }
    }
}

impl RedirectResource {
    /// A copy of the resource.
    pub fn copy(&self) -> (r: RedirectResource)
        ensures
            r@ == self@,
    {
        RedirectResource { content_type: self.content_type.clone(), data: self.data.clone() }
    }
}

impl ResourceModel {
    /// The resource can be injected as a script.
    pub open spec fn is_scriptlet(self) -> bool {
        self.kind is Template || self.kind == ResourceType::Mime(MimeType::ApplicationJavascript)
    }

    /// The resource holds text.
    pub open spec fn is_textual(self) -> bool {
        match self.kind {
            ResourceType::Template => true,
            ResourceType::Mime(mime) => mime.is_textual(),
        }
    }

    /// Why the resource is refused, if it is: contents that are no Base64, or
    /// that hold text and are no UTF-8.
    pub open spec fn flaw(self) -> Option<AddResourceError> {
        content_flaw(base64_bytes(self.content), self.is_textual())
    }

    /// The text that the contents encode.
    pub open spec fn text(self) -> Seq<char> {
        decode_utf8(base64_bytes(self.content)->0)
    }

    /// The answer that the resource makes.
    pub open spec fn answer(self) -> RedirectModel {
        RedirectModel {
            content_type: match self.kind {
                ResourceType::Mime(mime) => mime.name(),
                ResourceType::Template => Seq::empty(),
            },
            data: self.content,
        }
    }
}

/// A directory with one value under several names more.
pub open spec fn with_names<T>(
    map: Map<Seq<char>, T>,
    names: Seq<Seq<char>>,
    value: T,
) -> Map<Seq<char>, T>
    decreases names.len(),
{
    if names.len() == 0 {
        map
    } else {
        with_names(map, names.drop_last(), value).insert(names.last(), value)
    }
}

/// The answers, with a resource added: under its aliases and its name, where it
/// makes an answer and is not refused.
pub open spec fn redirects_with(
    map: Map<Seq<char>, RedirectModel>,
    resource: ResourceModel,
) -> Map<Seq<char>, RedirectModel> {
    if resource.kind is Mime && resource.flaw() is None {
        with_names(map, resource.aliases.push(resource.name), resource.answer())
    } else {
        map
    }
}

/// The answers that the resources of a list make.
pub open spec fn redirects_of(resources: Seq<ResourceModel>) -> Map<Seq<char>, RedirectModel>
    decreases resources.len(),
{
    if resources.len() == 0 {
        Map::empty()
    } else {
        redirects_with(redirects_of(resources.drop_last()), resources.last())
    }
}

/// A script name without the ending `.js`.
pub open spec fn script_name(name: Seq<char>) -> Seq<char> {
    if ".js"@.is_suffix_of(name) {
        name.take(name.len() - 3)
    } else {
        name
    }
}

/// The scripts, with a resource added: under its aliases and its name without
/// the ending `.js`, where it is a script and is not refused.
pub open spec fn scriptlets_with(
    map: Map<Seq<char>, Seq<char>>,
    resource: ResourceModel,
) -> Map<Seq<char>, Seq<char>> {
    if resource.is_scriptlet() && resource.flaw() is None {
        with_names(
            map,
            resource.aliases.push(resource.name).map_values(|n: Seq<char>| script_name(n)),
            resource.text(),
        )
    } else {
        map
    }
}

/// The scripts among the resources of a list.
pub open spec fn scriptlets_of(resources: Seq<ResourceModel>) -> Map<Seq<char>, Seq<char>>
    decreases resources.len(),
{
    if resources.len() == 0 {
        Map::empty()
    } else {
        scriptlets_with(scriptlets_of(resources.drop_last()), resources.last())
    }
}

/// The placeholder of the `k`th argument, counted from one.
pub open spec fn placeholder(k: int) -> Seq<char> {
    seq!['{', '{', (48 + k) as char, '}', '}']
}

/// A script with its first `k` placeholders filled.
pub open spec fn filled(template: Seq<char>, args: Seq<Seq<char>>, k: nat) -> Seq<char>
    decreases k,
{
    if k == 0 {
        template
    } else {
        replace(filled(template, args, (k - 1) as nat), placeholder(k as int), args[k as int])
    }
}

/// The script that a call with arguments between commas stands for: the first
/// names it, up to nine more fill its placeholders.
pub open spec fn scriptlet_call(map: Map<Seq<char>, Seq<char>>, call: Seq<char>) -> Option<
    Seq<char>,
> {
    let args = split(call, ',').map_values(|a: Seq<char>| trim(a));
    let name = script_name(args[0]);
    if map.contains_key(name) {
        let n = if args.len() <= 10 {
            (args.len() - 1) as nat
        } else {
            9nat
        };
        Some(filled(map[name], args, n))
    } else {
        None
    }
}

/// What is wrong with decoded contents: they could not be decoded, or are to be text
/// and are none.
pub open spec fn content_flaw(decoded: Option<Seq<u8>>, textual: bool) -> Option<
    AddResourceError,
> {
    match decoded {
        None => Some(AddResourceError::InvalidBase64Content),
        Some(bytes) => if textual && !valid_utf8(bytes) {
            Some(AddResourceError::InvalidUtf8Content)
        } else {
            None
        },
    }
}

/// The text of decoded contents, where they are to be text.
pub fn read_content(decoded: Option<Vec<u8>>, textual: bool) -> (r: Result<
    Option<String>,
    AddResourceError,
>)
    ensures
        match r {
            Ok(text) => {
                &&& content_flaw(opt_bytes(decoded), textual) is None
                &&& text is Some == textual
                &&& text matches Some(text) ==> text@ == decode_utf8(opt_bytes(decoded)->0)
            },
            Err(e) => content_flaw(opt_bytes(decoded), textual) == Some(e),
        },
{
    match decoded {
        None => Err(AddResourceError::InvalidBase64Content),
        Some(bytes) => if textual {
            match text_of_utf8(bytes) {
                Some(text) => Ok(Some(text)),
                None => Err(AddResourceError::InvalidUtf8Content),
            }
        } else {
            Ok(None)
        },
    }
}

/// Reads the contents of a resource.
fn check_content(resource: &Resource) -> (r: Result<Option<String>, AddResourceError>)
    ensures
        match r {
            Ok(text) => {
                &&& resource@.flaw() is None
                &&& text is Some == resource@.is_textual()
                &&& text matches Some(text) ==> text@ == resource@.text()
            },
            Err(e) => resource@.flaw() == Some(e),
        },
{
    let textual = match resource.kind {
        ResourceType::Template => true,
        ResourceType::Mime(MimeType::TextHtml) => true,
        ResourceType::Mime(MimeType::ApplicationJavascript) => true,
        ResourceType::Mime(MimeType::TextPlain) => true,
        _ => false,
    };
    read_content(base64_decode(resource.content.as_str()), textual)
}

/// The answers to requests, by name.
#[derive(Debug)]
pub struct RedirectResourceStorage {
    pub resources: Directory<RedirectResource>,
}

impl View for RedirectResourceStorage {
    type V = Map<Seq<char>, RedirectModel>;

    open spec fn view(&self) -> Map<Seq<char>, RedirectModel> {
        self.resources@
    }
}

impl RedirectResourceStorage {
    /// No answers.
    pub fn new() -> (r: RedirectResourceStorage)
        ensures
            r@ == Map::<Seq<char>, RedirectModel>::empty(),
    {
        RedirectResourceStorage { resources: Directory::new() }
    }

    /// The answers that the resources of a list make. A flawed resource is passed over.
    pub fn from_resources(resources: &[Resource]) -> (r: RedirectResourceStorage)
        ensures
            r@ == redirects_of(resource_models(resources@)),
    {
        let ghost all = resource_models(resources@);
        let mut r = RedirectResourceStorage::new();
        let mut i: usize = 0;
        while i < resources.len()
            invariant
                i <= resources@.len(),
                all == resource_models(resources@),
                r@ == redirects_of(all.take(i as int)),
            decreases resources@.len() - i,
        {
            assert(all.take(i + 1).drop_last() =~= all.take(i as int));
            assert(all.take(i + 1).last() == resources@[i as int]@);
            let _ = r.add_resource(&resources[i]);
            i += 1;
        }
        assert(all.take(i as int) =~= all);
        r
    }

    /// Adds a resource.
    pub fn add_resource(&mut self, resource: &Resource) -> (r: Result<(), AddResourceError>)
        ensures
            final(self)@ == redirects_with(old(self)@, resource@),
            match r {
                Ok(_) => resource@.kind is Template || resource@.flaw() is None,
                Err(e) => resource@.kind is Mime && resource@.flaw() == Some(e),
            },
    {
        match resource.kind {
            ResourceType::Template => Ok(()),
            ResourceType::Mime(mime) => {
                match check_content(resource) {
                    Ok(_) => {},
                    Err(e) => {
                        return Err(e);
                    },
                }
                let ghost names = resource@.aliases.push(resource@.name);
                let ghost answer = resource@.answer();
                let mut i: usize = 0;
                while i < resource.aliases.len()
                    invariant
                        i <= resource.aliases@.len(),
                        resource.kind == ResourceType::Mime(mime),
                        names == resource@.aliases.push(resource@.name),
                        answer == resource@.answer(),
                        self@ == with_names(old(self)@, names.take(i as int), answer),
                    decreases resource.aliases@.len() - i,
                {
                    let value = RedirectResource {
                        content_type: mime.to_name(),
                        data: resource.content.clone(),
                    };
                    assert(value@ =~= answer);
                    assert(names.take(i + 1).drop_last() =~= names.take(i as int));
                    assert(names.take(i + 1).last() == resource.aliases@[i as int]@);
                    self.resources.insert(resource.aliases[i].clone(), value);
                    i += 1;
                }
                let value = RedirectResource {
                    content_type: mime.to_name(),
                    data: resource.content.clone(),
                };
                assert(value@ =~= answer);
                assert(names.drop_last() =~= names.take(i as int));
                self.resources.insert(resource.name.clone(), value);
                Ok(())
            },
        }
    }

    /// The answer under a name.
    pub fn get_resource(&self, name: &str) -> (r: Option<&RedirectResource>)
        ensures
            match r {
                Some(resource) => self@.contains_key(name@) && self@[name@] == resource@,
                None => !self@.contains_key(name@),
            },
    {
        self.resources.get(name)
    }
}

/// A script name without the ending `.js`.
fn without_js_extension(name: &str) -> (r: String)
    ensures
        r@ == script_name(name@),
{
    proof {
        reveal_strlit(".js");
    }
    let chars = chars_of(name);
    if ends_with(chars.as_slice(), ".js") {
        let stem = vstd::slice::slice_subrange(chars.as_slice(), 0, chars.len() - 3);
        assert(stem@ =~= name@.take(name@.len() - 3));
        string_of(stem)
    } else {
        name.to_owned()
    }
}

/// The scripts that can be injected, by name.
#[derive(Debug)]
pub struct ScriptletResourceStorage {
    pub scriptlets: Directory<String>,
}

impl View for ScriptletResourceStorage {
    type V = Map<Seq<char>, Seq<char>>;

    open spec fn view(&self) -> Map<Seq<char>, Seq<char>> {
        self.scriptlets@
    }
}

impl ScriptletResourceStorage {
    /// No scripts.
    pub fn new() -> (r: ScriptletResourceStorage)
        ensures
            r@ == Map::<Seq<char>, Seq<char>>::empty(),
    {
        ScriptletResourceStorage { scriptlets: Directory::new() }
    }

    /// The scripts among the resources of a list. A flawed resource is passed over.
    pub fn from_resources(resources: &[Resource]) -> (r: ScriptletResourceStorage)
        ensures
            r@ == scriptlets_of(resource_models(resources@)),
    {
        let ghost all = resource_models(resources@);
        let mut r = ScriptletResourceStorage::new();
        let mut i: usize = 0;
        while i < resources.len()
            invariant
                i <= resources@.len(),
                all == resource_models(resources@),
                r@ == scriptlets_of(all.take(i as int)),
            decreases resources@.len() - i,
        {
            assert(all.take(i + 1).drop_last() =~= all.take(i as int));
            assert(all.take(i + 1).last() == resources@[i as int]@);
            let _ = r.add_resource(&resources[i]);
            i += 1;
        }
        assert(all.take(i as int) =~= all);
        r
    }

    /// Adds a resource.
    pub fn add_resource(&mut self, resource: &Resource) -> (r: Result<(), AddResourceError>)
        ensures
            final(self)@ == scriptlets_with(old(self)@, resource@),
            match r {
                Ok(_) => !resource@.is_scriptlet() || resource@.flaw() is None,
                Err(e) => resource@.is_scriptlet() && resource@.flaw() == Some(e),
            },
    {
        let scriptlet = match resource.kind {
            ResourceType::Template => true,
            ResourceType::Mime(MimeType::ApplicationJavascript) => true,
            _ => false,
        };
        if !scriptlet {
            return Ok(());
        }
        let text = match check_content(resource) {
            Ok(Some(text)) => text,
            Ok(None) => {
                assert(false);
                return Ok(());
            },
            Err(e) => {
                return Err(e);
            },
        };
        let ghost names = resource@.aliases.push(resource@.name).map_values(
            |n: Seq<char>| script_name(n),
        );
        let mut i: usize = 0;
        while i < resource.aliases.len()
            invariant
                i <= resource.aliases@.len(),
                names == resource@.aliases.push(resource@.name).map_values(
                    |n: Seq<char>| script_name(n),
                ),
                self@ == with_names(old(self)@, names.take(i as int), text@),
            decreases resource.aliases@.len() - i,
        {
            assert(names.take(i + 1).drop_last() =~= names.take(i as int));
            assert(names.take(i + 1).last() == script_name(resource.aliases@[i as int]@));
            self.scriptlets.insert(
                without_js_extension(resource.aliases[i].as_str()),
                text.clone(),
            );
            i += 1;
        }
        assert(names.drop_last() =~= names.take(i as int));
        assert(names.last() == script_name(resource@.name));
        self.scriptlets.insert(without_js_extension(resource.name.as_str()), text);
        Ok(())
    }

    /// The script that a call stands for.
    pub fn get_scriptlet(&self, call: &str) -> (r: Option<String>)
        ensures
            match r {
                Some(script) => scriptlet_call(self@, call@) == Some(script@),
                None => scriptlet_call(self@, call@) is None,
            },
    {
        let chars = chars_of(call);
        let pieces = split_at(chars.as_slice(), ',');
        let ghost args = split(call@, ',').map_values(|a: Seq<char>| trim(a));
        proof {
            lemma_split_len(call@, ',');
            assert(args[0] == trim(texts(pieces@)[0]));
        }
        let first = string_of(trimmed(pieces[0].as_slice()));
        let name = without_js_extension(first.as_str());
        let template = match self.scriptlets.get(name.as_str()) {
            Some(template) => template,
            None => {
                return None;
            },
        };
        let n: usize = if pieces.len() <= 10 {
            pieces.len() - 1
        } else {
            9
        };
        let mut script = chars_of(template.as_str());
        let mut k: usize = 0;
        while k < n
            invariant
                k <= n <= 9,
                n < pieces@.len(),
                args == split(call@, ',').map_values(|a: Seq<char>| trim(a)),
                texts(pieces@) == split(call@, ','),
                script@ == filled(template@, args, k as nat),
            decreases n - k,
        {
            k += 1;
            let mut mark: Vec<char> = Vec::new();
            mark.push('{');
            mark.push('{');
            mark.push((48 + k as u8) as char);
            mark.push('}');
            mark.push('}');
            assert(mark@ =~= placeholder(k as int));
            assert(args[k as int] == trim(texts(pieces@)[k as int]));
            script = replace_all(
                script.as_slice(),
                mark.as_slice(),
                trimmed(pieces[k].as_slice()),
            );
        }
        Some(string_of(script.as_slice()))
    }
}

/// A split text has at least one piece.
proof fn lemma_split_len(s: Seq<char>, c: char)
    ensures
        split(s, c).len() > 0,
{
}

} // verus!
