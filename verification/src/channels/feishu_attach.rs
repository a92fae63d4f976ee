//! Attachments on Feishu: what is uploaded, where to, and the message that
//! shows it.

use crate::channels::feishu;
use crate::json;
use crate::json::{Fields, Json, JsonV};
use crate::paths;
use crate::text;
use vstd::prelude::*;

verus! {

broadcast use vstd::string::group_string_axioms;

/// How a file is shown.
#[derive(Clone, Copy, Debug, PartialEq, Eq)]
pub enum AttachmentKind {
    Image,
    Audio,
    Media,
    File,
}

/// How a file is shown, by its extension in lower case.
pub open spec fn kind_for(ext: Seq<char>) -> AttachmentKind {
    if ext == "png"@ || ext == "jpg"@ || ext == "jpeg"@ || ext == "gif"@ || ext == "bmp"@ || ext
        == "webp"@ {
        AttachmentKind::Image
    } else if feishu::names_audio(ext) {
        AttachmentKind::Audio
    } else if feishu::names_video(ext) {
        AttachmentKind::Media
    } else {
        AttachmentKind::File
    }
}

/// How a file is shown, by its extension in lower case.
pub fn attachment_kind(ext: &str) -> (res: AttachmentKind)
    ensures
        res == kind_for(ext@),
{
    if text::same(ext, "png") || text::same(ext, "jpg") || text::same(ext, "jpeg") || text::same(
        ext,
        "gif",
    ) || text::same(ext, "bmp") || text::same(ext, "webp") {
        AttachmentKind::Image
    } else if feishu::is_audio_name(ext) {
        AttachmentKind::Audio
    } else if feishu::is_video_name(ext) {
        AttachmentKind::Media
    } else {
        AttachmentKind::File
    }
}

/// The type of the message that shows a file.
pub open spec fn msg_type_of(kind: AttachmentKind) -> Seq<char> {
    match kind {
        AttachmentKind::Image => "image"@,
        AttachmentKind::Audio => "audio"@,
        AttachmentKind::Media => "media"@,
        AttachmentKind::File => "file"@,
    }
}

impl AttachmentKind {
    /// The type of the message that shows a file.
    pub fn msg_type(&self) -> (res: String)
        ensures
            res@ == msg_type_of(*self),
    {
        match self {
            AttachmentKind::Image => text::owned("image"),
            AttachmentKind::Audio => text::owned("audio"),
            AttachmentKind::Media => text::owned("media"),
            AttachmentKind::File => text::owned("file"),
        }
    }
}

/// A file to upload: the form around its bytes, and how it will be shown.
pub struct Upload {
    pub kind: AttachmentKind,
    pub url: String,
    /// The plain fields of the form.
    pub fields: Vec<(String, String)>,
    /// The name of the field that holds the bytes.
    pub part: String,
    pub filename: String,
}

/// The name under which a file is sent.
pub open spec fn sent_name(path: Seq<char>) -> Seq<char> {
    match paths::file_name(path) {
        Some(name) => feishu::safe_filename(name),
        None => feishu::safe_filename("attachment.bin"@),
    }
}

/// The plain fields of the upload form.
pub open spec fn form_fields(ext: Seq<char>, filename: Seq<char>) -> Seq<(Seq<char>, Seq<char>)> {
    if kind_for(ext) == AttachmentKind::Image {
        Seq::empty().push(("image_type"@, "message"@))
    } else {
        Seq::empty().push(("file_type"@, feishu::upload_type(ext))).push(("file_name"@, filename))
    }
}

/// Where a file is uploaded.
pub open spec fn upload_url(base_url: Seq<char>, ext: Seq<char>) -> Seq<char> {
    if kind_for(ext) == AttachmentKind::Image {
        base_url + "/open-apis/im/v1/images"@
    } else {
        base_url + "/open-apis/im/v1/files"@
    }
}

/// The field of the form that holds the bytes.
pub open spec fn form_part(ext: Seq<char>) -> Seq<char> {
    if kind_for(ext) == AttachmentKind::Image {
        "image"@
    } else {
        "file"@
    }
}

/// The upload of a file with this extension, in lower case, under this name.
pub fn upload_for(base_url: &str, ext: &str, filename: &str) -> (res: Upload)
    ensures
        res.kind == kind_for(ext@),
        res.url@ == upload_url(base_url@, ext@),
        text::pairs(res.fields@) == form_fields(ext@, filename@),
        res.part@ == form_part(ext@),
        res.filename@ == filename@,
{
    let kind = attachment_kind(ext);
    let mut fields: Vec<(String, String)> = Vec::new();
    match kind {
        AttachmentKind::Image => {
            fields.push((text::owned("image_type"), text::owned("message")));
            assert(text::pairs(fields@) =~= form_fields(ext@, filename@));
            Upload {
                kind,
                url: text::cat(base_url, "/open-apis/im/v1/images"),
                fields,
                part: text::owned("image"),
                filename: filename.to_owned(),
            }
        },
        _ => {
            let file_type = feishu::upload_type_of(ext);
            fields.push((text::owned("file_type"), file_type));
            fields.push((text::owned("file_name"), filename.to_owned()));
            assert(text::pairs(fields@) =~= form_fields(ext@, filename@));
            Upload {
                kind,
                url: text::cat(base_url, "/open-apis/im/v1/files"),
                fields,
                part: text::owned("file"),
                filename: filename.to_owned(),
            }
        },
    }
}

/// The upload of the file at `path`.
pub fn plan_upload(base_url: &str, path: &str) -> (res: Upload)
    ensures
        ({
            let ext = text::lowercase(paths::extension_or_empty(path@));
            &&& res.kind == kind_for(ext)
            &&& res.url@ == upload_url(base_url@, ext)
            &&& text::pairs(res.fields@) == form_fields(ext, sent_name(path@))
            &&& res.part@ == form_part(ext)
            &&& res.filename@ == sent_name(path@)
        }),
{
    let name = match paths::file_name_of(path) {
        Some(name) => name,
        None => text::owned("attachment.bin"),
    };
    let filename = feishu::sanitize_filename(name.as_str());
    let ext = paths::extension_of(path).to_lowercase();
    upload_for(base_url, ext.as_str(), filename.as_str())
}

/// The key of an uploaded file, from the reply.
pub open spec fn uploaded_key(kind: AttachmentKind, body: JsonV) -> Result<Seq<char>, Seq<char>> {
    if kind == AttachmentKind::Image {
        feishu::reply_text(
            body,
            "Feishu image upload"@,
            "data"@,
            "image_key"@,
            "Missing image_key in upload response"@,
        )
    } else {
        feishu::reply_text(
            body,
            "Feishu file upload"@,
            "data"@,
            "file_key"@,
            "Missing file_key in upload response"@,
        )
    }
}

/// The key of an uploaded file, from the reply.
pub fn read_uploaded_key(kind: AttachmentKind, body: &Json) -> (res: Result<String, String>)
    ensures
        feishu::text_result(res) == uploaded_key(kind, body@),
{
    match kind {
        AttachmentKind::Image => feishu::read_reply_text(
            body,
            "Feishu image upload",
            "data",
            "image_key",
            "Missing image_key in upload response",
        ),
        _ => feishu::read_reply_text(
            body,
            "Feishu file upload",
            "data",
            "file_key",
            "Missing file_key in upload response",
        ),
    }
}

/// What the message that shows a file holds. A film needs a cover: none.
pub open spec fn attachment_content(kind: AttachmentKind, key: Seq<char>) -> JsonV {
    match kind {
        AttachmentKind::Image => json::obj1("image_key"@, json::jstr(key)),
        AttachmentKind::Media => json::obj2(
            "file_key"@,
            json::jstr(key),
            "image_key"@,
            json::jstr(""@),
        ),
        _ => json::obj1("file_key"@, json::jstr(key)),
    }
}

/// The message that shows an uploaded file.
pub fn attachment_message(kind: AttachmentKind, recipient: &str, key: &str) -> (res: Json)
    ensures
        res@ == feishu::message_body(
            recipient@,
            msg_type_of(kind),
            json::text_of(attachment_content(kind, key@)),
        ),
{
    let content = match kind {
        AttachmentKind::Image => Fields::new().text("image_key", key).object(),
        AttachmentKind::Media => Fields::new().text("file_key", key).text("image_key", "").object(),
        _ => Fields::new().text("file_key", key).object(),
    };
    let kind_name = kind.msg_type();
    let content_text = content.to_text();
    feishu::build_message_body(recipient, kind_name.as_str(), content_text.as_str())
}

/// Whether the reply to the message that shows a file reports success.
pub fn check_attachment_reply(kind: AttachmentKind, body: &Json) -> (res: Result<(), String>)
    ensures
        match res {
            Ok(()) => feishu::reply_error(
                body@,
                "Feishu send "@ + msg_type_of(kind) + " message"@,
            ) is None,
            Err(e) => feishu::reply_error(
                body@,
                "Feishu send "@ + msg_type_of(kind) + " message"@,
            ) == Some(e@),
        },
{
    let kind_name = kind.msg_type();
    let what = text::cat3("Feishu send ", kind_name.as_str(), " message");
    feishu::check_reply(body, what.as_str())
}

/// The line that stands for a sent attachment.
pub open spec fn attachment_note(path: Seq<char>, caption: Option<Seq<char>>) -> Seq<char> {
    match caption {
        Some(c) => "[attachment:"@ + path + "] "@ + c,
        None => "[attachment:"@ + path + "]"@,
    }
}

/// The line that stands for a sent attachment.
pub fn describe_attachment(path: &str, caption: Option<&str>) -> (res: String)
    ensures
        res@ == attachment_note(path@, json::opt_str(caption)),
{
    match caption {
        Some(c) => text::cat4("[attachment:", path, "] ", c),
        None => text::cat3("[attachment:", path, "]"),
    }
}

/// The caption that is sent as a message of its own: one that is not empty.
pub fn caption_message(caption: Option<&str>) -> (res: Option<String>)
    ensures
        text::opt(res) == match json::opt_str(caption) {
            Some(c) => if c.len() > 0 {
                Some(c)
            } else {
                None
            },
            None => None,
        },
{
    match caption {
        Some(c) => if c.is_empty() {
            None
        } else {
            Some(c.to_owned())
        },
        None => None,
    }
}

// ---------------------------------------------------------------------------
// What holds of attachments
// ---------------------------------------------------------------------------

/// An attachment is shown as what its extension says: an image, a sound or a film; any
/// other is a file. Under each kind it is sent by the name of the kind.
pub proof fn law_kinds(ext: Seq<char>)
    ensures
        seq!["png"@, "jpg"@, "jpeg"@, "gif"@, "bmp"@, "webp"@].contains(ext) <==> kind_for(ext) == AttachmentKind::Image,
        feishu::audio_names().contains(ext) <==> kind_for(ext) == AttachmentKind::Audio,
        feishu::video_names().contains(ext) <==> kind_for(ext) == AttachmentKind::Media,
        msg_type_of(AttachmentKind::Image) == "image"@,
        msg_type_of(AttachmentKind::Audio) == "audio"@,
        msg_type_of(AttachmentKind::Media) == "media"@,
        msg_type_of(AttachmentKind::File) == "file"@,
{
    feishu::law_audio_names(ext);
    feishu::law_video_names(ext);
    let images = seq!["png"@, "jpg"@, "jpeg"@, "gif"@, "bmp"@, "webp"@];
    assert(images[0] == "png"@);
    assert(images[1] == "jpg"@);
    assert(images[2] == "jpeg"@);
    assert(images[3] == "gif"@);
    assert(images[4] == "bmp"@);
    assert(images[5] == "webp"@);
    reveal_strlit("png");
    reveal_strlit("jpg");
    reveal_strlit("jpeg");
    reveal_strlit("gif");
    reveal_strlit("bmp");
    reveal_strlit("webp");
    reveal_strlit("opus");
    reveal_strlit("ogg");
    reveal_strlit("mp3");
    reveal_strlit("wav");
    reveal_strlit("m4a");
    reveal_strlit("aac");
    reveal_strlit("flac");
    reveal_strlit("mp4");
    reveal_strlit("mov");
    reveal_strlit("avi");
    reveal_strlit("mkv");
    reveal_strlit("webm");
    assert("png"@.len() == 3 && "png"@[0] == 'p');
    assert("jpg"@.len() == 3 && "jpg"@[0] == 'j');
    assert("gif"@.len() == 3 && "gif"@[0] == 'g');
    assert("bmp"@.len() == 3 && "bmp"@[0] == 'b');
    assert("ogg"@.len() == 3 && "ogg"@[0] == 'o');
    assert("mp3"@.len() == 3 && "mp3"@[0] == 'm' && "mp3"@[1] == 'p' && "mp3"@[2] == '3');
    assert("wav"@.len() == 3 && "wav"@[0] == 'w');
    assert("m4a"@.len() == 3 && "m4a"@[0] == 'm' && "m4a"@[1] == '4');
    assert("aac"@.len() == 3 && "aac"@[0] == 'a' && "aac"@[1] == 'a');
    assert("mp4"@.len() == 3 && "mp4"@[0] == 'm' && "mp4"@[1] == 'p' && "mp4"@[2] == '4');
    assert("mov"@.len() == 3 && "mov"@[0] == 'm' && "mov"@[1] == 'o');
    assert("avi"@.len() == 3 && "avi"@[0] == 'a' && "avi"@[1] == 'v');
    assert("mkv"@.len() == 3 && "mkv"@[0] == 'm' && "mkv"@[1] == 'k');
    assert("jpeg"@.len() == 4 && "jpeg"@[0] == 'j');
    assert("webp"@.len() == 4 && "webp"@[0] == 'w' && "webp"@[3] == 'p');
    assert("opus"@.len() == 4 && "opus"@[0] == 'o');
    assert("flac"@.len() == 4 && "flac"@[0] == 'f');
    assert("webm"@.len() == 4 && "webm"@[0] == 'w' && "webm"@[3] == 'm');
}

/// An image is uploaded as an image to be shown in a message, any other attachment as a
/// file of its type, under its name.
pub proof fn law_form(ext: Seq<char>, filename: Seq<char>, base_url: Seq<char>)
    ensures
        kind_for(ext) == AttachmentKind::Image ==> form_fields(ext, filename) == seq![
            ("image_type"@, "message"@),
        ] && upload_url(base_url, ext) == base_url + "/open-apis/im/v1/images"@ && form_part(ext)
            == "image"@,
        kind_for(ext) != AttachmentKind::Image ==> form_fields(ext, filename) == seq![
            ("file_type"@, feishu::upload_type(ext)),
            ("file_name"@, filename),
        ] && upload_url(base_url, ext) == base_url + "/open-apis/im/v1/files"@ && form_part(ext)
            == "file"@,
{
    assert(form_fields(ext, filename) =~= if kind_for(ext) == AttachmentKind::Image {
        seq![("image_type"@, "message"@)]
    } else {
        seq![("file_type"@, feishu::upload_type(ext)), ("file_name"@, filename)]
    });
}

/// The name under which a file is sent is the safe form of its own name, wherever it
/// lies.
pub proof fn law_sent_name(pieces: Seq<Seq<char>>, name: Seq<char>)
    requires
        forall|i: int| 0 <= i < pieces.len() ==> !(#[trigger] pieces[i]).contains('/'),
        !name.contains('/'),
        name.len() > 0,
        name != seq!['.'],
        name != seq!['.', '.'],
    ensures
        sent_name(text::join(pieces.push(name), seq!['/'])) == feishu::safe_filename(name),
{
    let all = pieces.push(name);
    assert forall|i: int| 0 <= i < all.len() implies !(#[trigger] all[i]).contains('/') by {
        if i < pieces.len() {
            assert(all[i] == pieces[i]);
        }
    }
    paths::law_file_name(all, pieces.len() as int);
}

/// The key of an upload is given if and only if the reply reports success and holds it,
/// for an image under its own name.
pub proof fn law_uploaded_key(kind: AttachmentKind, body: JsonV)
    ensures
        ({
            let key = if kind == AttachmentKind::Image {
                "image_key"@
            } else {
                "file_key"@
            };
            &&& uploaded_key(kind, body) is Ok <==> body.whole("code"@) == Some(0i64) && (body.at2(
                "data"@,
                key,
            ) matches Some(JsonV::Text(_)))
            &&& uploaded_key(kind, body) matches Ok(k) ==> body.at2("data"@, key) == Some(
                JsonV::Text(k),
            )
        }),
{
}

/// What is sent of an attachment refers to it by its key.
pub proof fn law_attachment_content(kind: AttachmentKind, key: Seq<char>)
    ensures
        kind == AttachmentKind::Image ==> attachment_content(kind, key).get("image_key"@) == Some(
            JsonV::Text(key),
        ),
        kind != AttachmentKind::Image ==> attachment_content(kind, key).get("file_key"@) == Some(
            JsonV::Text(key),
        ),
        kind == AttachmentKind::Media ==> attachment_content(kind, key).get("image_key"@) is Some,
{
    reveal_strlit("image_key");
    reveal_strlit("file_key");
    assert("file_key"@.len() == 8);
    assert("image_key"@.len() == 9);
    reveal_with_fuel(json::member_from, 3);
}

/// A line that stands for an attachment names its path and ends with its caption, where
/// it has one.
pub proof fn law_attachment_note(path: Seq<char>, caption: Option<Seq<char>>)
    ensures
        text::contains(attachment_note(path, caption), path),
        caption matches Some(c) ==> c.is_suffix_of(attachment_note(path, caption)),
        caption is None ==> attachment_note(path, caption).len() == path.len() + 13,
{
    reveal_strlit("[attachment:");
    reveal_strlit("]");
    let note = attachment_note(path, caption);
    let front = "[attachment:"@;
    text::lemma_middle_is_contained(front, path, note.skip((front.len() + path.len()) as int));
    assert(note =~= front + path + note.skip((front.len() + path.len()) as int));
    if caption is Some {
        let c = caption->0;
        assert(note.subrange(note.len() - c.len(), note.len() as int) =~= c);
    }
}

} // verus!
