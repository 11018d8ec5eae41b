//! Exported skins: a zip archive with the settings and, where the skin has them, pictures and
//! colours.

use vstd::prelude::*;

use crate::builtin::{channels, hex_colors, parse_colorset};
use crate::config::{
    is_ambient, is_config, is_settings, layer_list, layer_model, layer_models, layers_of,
    BackgroundLayer, LayerModel, SkinConfig,
};
use crate::error::Error;
use crate::extraction::{lossy_text, lossy_utf8};
use crate::json::{json_document, Json};
use crate::text::{
    begins, chars_of, decimal, ends, ends_with, lines_of, lowercase, lowered, push_decimal,
    same_chars, starts_with,
};

verus! {

/// An in-memory reader of std, as plain bytes.
#[verifier::external_type_specification]
#[verifier::external_body]
#[verifier::reject_recursive_types(T)]
pub struct ExCursor<T>(std::io::Cursor<T>);

/// An open zip archive.
#[verifier::external_type_specification]
#[verifier::external_body]
#[verifier::reject_recursive_types(R)]
pub struct ExZipArchive<R>(zip::ZipArchive<R>);

/// No entry of a skin may be longer than this.
pub const MAX_RHS_ENTRY_BYTES: u64 = 67_108_864;

/// The bytes that an archive was opened on.
pub uninterp spec fn zip_source(
    archive: zip::ZipArchive<std::io::Cursor<Vec<u8>>>,
) -> Seq<u8>;

/// What `ZipArchive::new` says of bytes that it cannot open; none where it opens them.
pub uninterp spec fn zip_refusal(bytes: Seq<u8>) -> Option<Seq<char>>;

/// What `ZipArchive::len` counts in the archive that some bytes hold.
pub uninterp spec fn zip_len(bytes: Seq<u8>) -> nat;

/// The name under which `ZipArchive::by_index` finds an entry; none where it cannot open it.
pub uninterp spec fn zip_name(bytes: Seq<u8>, index: int) -> Option<Seq<char>>;

/// The length in the header of the entry that `ZipArchive::by_name` finds: none where there is
/// no such entry, and the words of any other error.
pub uninterp spec fn zip_size(bytes: Seq<u8>, name: Seq<char>) -> Result<
    Option<nat>,
    Seq<char>,
>;

/// What reading an entry gives, up to a limit: its bytes, or the words of the error.
pub uninterp spec fn zip_content(bytes: Seq<u8>, name: Seq<char>, limit: nat) -> Result<
    Seq<u8>,
    Seq<char>,
>;

/// `zip::ZipArchive::new` opens an archive in memory, or says why it cannot; both depend on the
/// bytes alone.
#[verifier::external_body]
fn open_zip(bytes: Vec<u8>) -> (archive: Result<
    zip::ZipArchive<std::io::Cursor<Vec<u8>>>,
    String,
>)
    ensures
        match archive {
            Ok(a) => zip_refusal(bytes@) is None && zip_source(a) == bytes@,
            Err(e) => zip_refusal(bytes@) == Some(e@),
        },
{
    zip::ZipArchive::new(std::io::Cursor::new(bytes)).map_err(|e| e.to_string())
}

/// `zip::ZipArchive::len`: the number of entries.
#[verifier::external_body]
fn entry_count(archive: &zip::ZipArchive<std::io::Cursor<Vec<u8>>>) -> (n: usize)
    ensures
        n == zip_len(zip_source(*archive)),
{
    archive.len()
}

/// `zip::ZipArchive::by_index`, and the name of the entry that it opens; none where it fails.
/// The archive stays the same.
#[verifier::external_body]
fn entry_name(
    archive: &mut zip::ZipArchive<std::io::Cursor<Vec<u8>>>,
    index: usize,
) -> (name: Option<String>)
    ensures
        zip_source(*final(archive)) == zip_source(*old(archive)),
        match name {
            Some(n) => zip_name(zip_source(*old(archive)), index as int) == Some(n@),
            None => zip_name(zip_source(*old(archive)), index as int) is None,
        },
{
    archive.by_index(index).ok().map(|e| e.name().to_owned())
}

/// `zip::ZipArchive::by_name`, and the length that the entry's header gives: none where the
/// archive has no such entry, the words of the error where it fails otherwise. The archive
/// stays the same.
#[verifier::external_body]
fn entry_size(
    archive: &mut zip::ZipArchive<std::io::Cursor<Vec<u8>>>,
    name: &str,
) -> (size: Result<Option<u64>, String>)
    ensures
        zip_source(*final(archive)) == zip_source(*old(archive)),
        match size {
            Ok(Some(n)) => zip_size(zip_source(*old(archive)), name@) == Ok::<
                Option<nat>,
                Seq<char>,
            >(Some(n as nat)),
            Ok(None) => zip_size(zip_source(*old(archive)), name@) == Ok::<Option<nat>, Seq<char>>(
                None,
            ),
            Err(e) => zip_size(zip_source(*old(archive)), name@) == Err::<Option<nat>, Seq<char>>(
                e@,
            ),
        },
{
    match archive.by_name(name) {
        Ok(e) => Ok(Some(e.size())),
        Err(zip::result::ZipError::FileNotFound) => Ok(None),
        Err(e) => Err(e.to_string()),
    }
}

/// `zip::ZipArchive::by_name`, and reading the entry up to a limit: its bytes, no more than the
/// limit, or the words of the error. The archive stays the same.
#[verifier::external_body]
fn entry_content(
    archive: &mut zip::ZipArchive<std::io::Cursor<Vec<u8>>>,
    name: &str,
    limit: u64,
) -> (content: Result<Vec<u8>, String>)
    ensures
        zip_source(*final(archive)) == zip_source(*old(archive)),
        match content {
            Ok(b) => b@.len() <= limit && zip_content(
                zip_source(*old(archive)),
                name@,
                limit as nat,
            ) == Ok::<Seq<u8>, Seq<char>>(b@),
            Err(e) => zip_content(zip_source(*old(archive)), name@, limit as nat) == Err::<
                Seq<u8>,
                Seq<char>,
            >(e@),
        },
{
    let entry = archive.by_name(name).map_err(|e| e.to_string())?;
    let mut bytes = Vec::new();
    let mut bounded = std::io::Read::take(entry, limit);
    std::io::Read::read_to_end(&mut bounded, &mut bytes).map_err(|e| e.to_string())?;
    Ok(bytes)
}

/// The words for an entry that cannot be read.
pub open spec fn unreadable(name: Seq<char>, why: Seq<char>) -> Seq<char> {
    "reading "@ + name + ": "@ + why
}

/// An entry of a skin that was looked up: its bytes, none where there is no such entry, or the
/// words of the error. `size` is what the lookup gave, `content` what reading gave.
pub open spec fn checked_entry(
    name: Seq<char>,
    size: Result<Option<nat>, Seq<char>>,
    content: Result<Seq<u8>, Seq<char>>,
) -> Result<Option<Seq<u8>>, Seq<char>> {
    match size {
        Ok(Some(n)) => if n > MAX_RHS_ENTRY_BYTES {
            Err("skin entry "@ + name + " too large ("@ + decimal(n) + " bytes)"@)
        } else {
            match content {
                Ok(b) => if b.len() > MAX_RHS_ENTRY_BYTES {
                    Err("skin entry "@ + name + " too large"@)
                } else {
                    Ok(Some(b))
                },
                Err(e) => Err(unreadable(name, e)),
            }
        },
        Ok(None) => Ok(None),
        Err(e) => Err(unreadable(name, e)),
    }
}

/// An entry of the skin that some bytes hold.
pub open spec fn entry_of(bytes: Seq<u8>, name: Seq<char>) -> Result<
    Option<Seq<u8>>,
    Seq<char>,
> {
    checked_entry(
        name,
        zip_size(bytes, name),
        zip_content(bytes, name, (MAX_RHS_ENTRY_BYTES + 1) as nat),
    )
}

/// Whether a name is that of a file under a prefix.
pub open spec fn is_under(name: Seq<char>, prefix: Seq<char>) -> bool {
    begins(name, prefix) && name.len() > prefix.len() && !ends(name, "/"@)
}

/// Whether the entry at an index is a file under a prefix.
pub open spec fn lies_under(bytes: Seq<u8>, index: int, prefix: Seq<char>) -> bool {
    match zip_name(bytes, index) {
        Some(n) => is_under(n, prefix),
        None => false,
    }
}

/// The name of the first file under a prefix, from an index on.
pub open spec fn first_from(bytes: Seq<u8>, prefix: Seq<char>, from: nat) -> Option<Seq<char>>
    decreases zip_len(bytes) - from,
{
    if from >= zip_len(bytes) {
        None
    } else if lies_under(bytes, from as int, prefix) {
        zip_name(bytes, from as int)
    } else {
        first_from(bytes, prefix, from + 1)
    }
}

/// The first file under a prefix.
pub open spec fn file_under(bytes: Seq<u8>, prefix: Seq<char>) -> Result<
    Option<Seq<u8>>,
    Seq<char>,
> {
    match first_from(bytes, prefix, 0) {
        Some(name) => entry_of(bytes, name),
        None => Ok(None),
    }
}

/// The folder of a background layer.
pub open spec fn layer_folder(i: nat) -> Seq<char> {
    "backgrounds/"@ + decimal(i) + "/"@
}

/// The first error among the files of the background layers from one on.
pub open spec fn layer_error(bytes: Seq<u8>, from: nat, count: nat) -> Option<Seq<char>>
    decreases count - from,
{
    if from >= count {
        None
    } else {
        match file_under(bytes, layer_folder(from)) {
            Err(e) => Some(e),
            Ok(_) => layer_error(bytes, from + 1, count),
        }
    }
}

/// The settings of a skin, or the words of the first error in reading them: of the archive, its
/// entry, and its text, in this order.
pub open spec fn settings_of(bytes: Seq<u8>) -> Result<Json, Seq<char>> {
    match zip_refusal(bytes) {
        Some(e) => Err("bad .rhs zip: "@ + e),
        None => match entry_of(bytes, "config"@) {
            Err(e) => Err(e),
            Ok(None) => Err(".rhs has no config entry"@),
            Ok(Some(text)) => match json_document(lossy_utf8(text)) {
                Err(e) => Err("config JSON: "@ + e),
                Ok(doc) => Ok(doc),
            },
        },
    }
}

/// The words of the first error in reading the pictures and colours of a skin.
pub open spec fn asset_error(bytes: Seq<u8>) -> Option<Seq<char>> {
    match file_under(bytes, "noteSkin/"@) {
        Err(e) => Some(e),
        Ok(_) => match file_under(bytes, "borderSkin/"@) {
            Err(e) => Some(e),
            Ok(_) => match file_under(bytes, "cursorTrailSkin/"@) {
                Err(e) => Some(e),
                Ok(_) => match file_under(bytes, "colorSet/"@) {
                    Err(e) => Some(e),
                    Ok(_) => None,
                },
            },
        },
    }
}

/// The words of the first error in reading a skin: of the settings, the pictures and colours, and
/// the background layers, in this order.
pub open spec fn skin_error(bytes: Seq<u8>) -> Option<Seq<char>> {
    match settings_of(bytes) {
        Err(e) => Some(e),
        Ok(doc) => match asset_error(bytes) {
            Some(e) => Some(e),
            None => layer_error(bytes, 0, layer_list(doc).len()),
        },
    }
}

/// Whether a picture is the first file under a prefix.
pub open spec fn is_picture(p: Option<Vec<u8>>, bytes: Seq<u8>, prefix: Seq<char>) -> bool {
    match p {
        Some(b) => file_under(bytes, prefix) == Ok::<Option<Seq<u8>>, Seq<char>>(Some(b@)),
        None => file_under(bytes, prefix) == Ok::<Option<Seq<u8>>, Seq<char>>(None),
    }
}

/// The colours of a skin.
pub open spec fn skin_colors(bytes: Seq<u8>) -> Seq<Seq<u8>> {
    match file_under(bytes, "colorSet/"@) {
        Ok(Some(text)) => hex_colors(lines_of(lossy_utf8(text))),
        _ => Seq::empty(),
    }
}

/// The first `n` background layers that have a picture, each with it.
pub open spec fn skin_layers(
    bytes: Seq<u8>,
    layers: Seq<LayerModel>,
    n: nat,
) -> Seq<(LayerModel, Seq<u8>)>
    decreases n,
{
    if n == 0 {
        Seq::empty()
    } else {
        let before = skin_layers(bytes, layers, (n - 1) as nat);
        match file_under(bytes, layer_folder((n - 1) as nat)) {
            Ok(Some(b)) => if b.len() > 0 {
                before.push((layers[n - 1], b))
            } else {
                before
            },
            _ => before,
        }
    }
}

/// Background layers with their pictures, as plain values.
pub open spec fn full_layers(list: Seq<BackgroundLayer>) -> Seq<(LayerModel, Seq<u8>)> {
    Seq::new(list.len(), |i: int| (layer_model(list[i]), list[i].bytes@))
}

/// Whether a skin is the one that some bytes hold.
pub open spec fn is_skin(c: SkinConfig, bytes: Seq<u8>) -> bool {
    match settings_of(bytes) {
        Ok(doc) => {
            let layers = layers_of(doc);
            &&& is_settings(c, doc)
            &&& is_ambient(c.ambient, doc)
            &&& is_picture(c.note_texture, bytes, "noteSkin/"@)
            &&& is_picture(c.border_texture, bytes, "borderSkin/"@)
            &&& is_picture(c.cursor_texture, bytes, "cursorTrailSkin/"@)
            &&& channels(c.colorset@) == skin_colors(bytes)
            &&& full_layers(c.background_images@) == skin_layers(bytes, layers, layers.len())
            &&& c.mod_icons@.len() == 0
            &&& c.hud_font is None
        },
        Err(_) => false,
    }
}

/// Why an entry whose header gives a length is not read; none where it is.
pub fn size_refusal(name: &str, size: u64) -> (why: Option<String>)
    ensures
        match why {
            Some(text) => size > MAX_RHS_ENTRY_BYTES && text@ == "skin entry "@ + name@
                + " too large ("@ + decimal(size as nat) + " bytes)"@,
            None => size <= MAX_RHS_ENTRY_BYTES,
        },
{
    if size <= MAX_RHS_ENTRY_BYTES {
        return None;
    }
    let mut text: String = "skin entry ".to_owned();
    text.append(name);
    text.append(" too large (");
    push_decimal(&mut text, size as u128);
    text.append(" bytes)");
    Some(text)
}

/// What is kept of an entry that was read: its bytes, or why they are too many.
pub fn bounded_entry(name: &str, bytes: Vec<u8>) -> (r: Result<Vec<u8>, String>)
    ensures
        match r {
            Ok(b) => bytes@.len() <= MAX_RHS_ENTRY_BYTES && b@ == bytes@,
            Err(text) => bytes@.len() > MAX_RHS_ENTRY_BYTES && text@ == "skin entry "@ + name@
                + " too large"@,
        },
{
    if bytes.len() as u64 > MAX_RHS_ENTRY_BYTES {
        let mut text: String = "skin entry ".to_owned();
        text.append(name);
        text.append(" too large");
        return Err(text);
    }
    Ok(bytes)
}

fn cannot_read(name: &str, why: &str) -> (text: String)
    ensures
        text@ == unreadable(name@, why@),
{
    let mut text: String = "reading ".to_owned();
    text.append(name);
    text.append(": ");
    text.append(why);
    text
}

/// Reads an entry of a skin; none where there is no such entry.
fn read_zip_entry(
    archive: &mut zip::ZipArchive<std::io::Cursor<Vec<u8>>>,
    name: &str,
) -> (r: Result<Option<Vec<u8>>, String>)
    ensures
        zip_source(*final(archive)) == zip_source(*old(archive)),
        match r {
            Ok(Some(b)) => entry_of(zip_source(*old(archive)), name@) == Ok::<
                Option<Seq<u8>>,
                Seq<char>,
            >(Some(b@)),
            Ok(None) => entry_of(zip_source(*old(archive)), name@) == Ok::<
                Option<Seq<u8>>,
                Seq<char>,
            >(None),
            Err(e) => entry_of(zip_source(*old(archive)), name@) == Err::<
                Option<Seq<u8>>,
                Seq<char>,
            >(e@),
        },
{
    match entry_size(archive, name) {
        Ok(Some(size)) => {
            if let Some(why) = size_refusal(name, size) {
                return Err(why);
            }
            match entry_content(archive, name, MAX_RHS_ENTRY_BYTES + 1) {
                Ok(bytes) => match bounded_entry(name, bytes) {
                    Ok(bytes) => Ok(Some(bytes)),
                    Err(why) => Err(why),
                },
                Err(why) => Err(cannot_read(name, why.as_str())),
            }
        },
        Ok(None) => Ok(None),
        Err(why) => Err(cannot_read(name, why.as_str())),
    }
}

/// Whether a name is that of a file under a prefix: the folder's own entry is none.
pub fn is_file_under(name: &str, prefix: &str) -> (r: bool)
    ensures
        r == is_under(name@, prefix@),
{
    let n: Vec<char> = chars_of(name);
    let p: Vec<char> = chars_of(prefix);
    starts_with(n.as_slice(), prefix) && n.len() > p.len() && !ends_with(n.as_slice(), "/")
}

/// Reads the first file under a prefix.
fn first_zip_entry_under(
    archive: &mut zip::ZipArchive<std::io::Cursor<Vec<u8>>>,
    prefix: &str,
) -> (r: Result<Option<Vec<u8>>, String>)
    ensures
        zip_source(*final(archive)) == zip_source(*old(archive)),
        match r {
            Ok(Some(b)) => file_under(zip_source(*old(archive)), prefix@) == Ok::<
                Option<Seq<u8>>,
                Seq<char>,
            >(Some(b@)),
            Ok(None) => file_under(zip_source(*old(archive)), prefix@) == Ok::<
                Option<Seq<u8>>,
                Seq<char>,
            >(None),
            Err(e) => file_under(zip_source(*old(archive)), prefix@) == Err::<
                Option<Seq<u8>>,
                Seq<char>,
            >(e@),
        },
{
    let ghost bytes = zip_source(*archive);
    let count: usize = entry_count(archive);
    let mut i: usize = 0;
    while i < count
        invariant
            i <= count == zip_len(bytes),
            zip_source(*archive) == bytes,
            bytes == zip_source(*old(archive)),
            first_from(bytes, prefix@, 0) == first_from(bytes, prefix@, i as nat),
        decreases count - i,
    {
        if let Some(name) = entry_name(archive, i) {
            if is_file_under(name.as_str(), prefix) {
                return read_zip_entry(archive, name.as_str());
            }
        }
        i = i + 1;
    }
    Ok(None)
}

fn read_colors(archive: &mut zip::ZipArchive<std::io::Cursor<Vec<u8>>>) -> (r: Result<
    Vec<[u8; 3]>,
    String,
>)
    ensures
        zip_source(*final(archive)) == zip_source(*old(archive)),
        match r {
            Ok(colors) => file_under(zip_source(*old(archive)), "colorSet/"@) is Ok && channels(
                colors@,
            ) == skin_colors(zip_source(*old(archive))),
            Err(e) => file_under(zip_source(*old(archive)), "colorSet/"@) == Err::<
                Option<Seq<u8>>,
                Seq<char>,
            >(e@),
        },
{
    match first_zip_entry_under(archive, "colorSet/") {
        Ok(Some(bytes)) => Ok(parse_colorset(lossy_text(bytes.as_slice()).as_str())),
        Ok(None) => {
            let colors: Vec<[u8; 3]> = Vec::new();
            assert(channels(colors@) =~= Seq::empty());
            Ok(colors)
        },
        Err(why) => Err(why),
    }
}

/// Gives the background layers their pictures; those without one are left out.
fn read_pictures(
    archive: &mut zip::ZipArchive<std::io::Cursor<Vec<u8>>>,
    layers: Vec<BackgroundLayer>,
) -> (r: Result<Vec<BackgroundLayer>, String>)
    ensures
        zip_source(*final(archive)) == zip_source(*old(archive)),
        match r {
            Ok(kept) => layer_error(zip_source(*old(archive)), 0, layers@.len()) is None
                && full_layers(kept@) == skin_layers(
                zip_source(*old(archive)),
                layer_models(layers@),
                layers@.len(),
            ),
            Err(e) => layer_error(zip_source(*old(archive)), 0, layers@.len()) == Some(e@),
        },
{
    let ghost bytes = zip_source(*archive);
    let ghost models = layer_models(layers@);
    let count: usize = layers.len();
    let mut kept: Vec<BackgroundLayer> = Vec::new();
    let mut i: usize = 0;
    assert(full_layers(kept@) =~= Seq::empty());
    while i < count
        invariant
            i <= count == layers@.len(),
            models == layer_models(layers@),
            zip_source(*archive) == bytes,
            bytes == zip_source(*old(archive)),
            layer_error(bytes, 0, count as nat) == layer_error(bytes, i as nat, count as nat),
            full_layers(kept@) == skin_layers(bytes, models, i as nat),
        decreases count - i,
    {
        let mut folder: String = "backgrounds/".to_owned();
        push_decimal(&mut folder, i as u128);
        folder.append("/");
        let ghost before = full_layers(kept@);
        match first_zip_entry_under(archive, folder.as_str()) {
            Ok(Some(picture)) => {
                if picture.len() > 0 {
                    let layer: BackgroundLayer = with_picture(&layers[i], picture);
                    kept.push(layer);
                    assert(full_layers(kept@) =~= before.push((models[i as int], layer.bytes@)));
                }
            },
            Ok(None) => {},
            Err(why) => {
                return Err(why);
            },
        }
        i = i + 1;
    }
    Ok(kept)
}

fn with_picture(layer: &BackgroundLayer, picture: Vec<u8>) -> (full: BackgroundLayer)
    ensures
        layer_model(full) == layer_model(*layer),
        full.bytes@ == picture@,
{
    BackgroundLayer {
        bytes: picture,
        fit: layer.fit,
        placement: layer.placement,
        center_x: layer.center_x,
        center_y: layer.center_y,
        scale_x: layer.scale_x,
        scale_y: layer.scale_y,
        flip_horizontal: layer.flip_horizontal,
        space_x: layer.space_x,
        space_y: layer.space_y,
        space_w: layer.space_w,
        space_h: layer.space_h,
        tint: layer.tint,
        tint_opacity: layer.tint_opacity,
    }
}

fn refused<T>(why: String) -> (r: Result<T, Error>)
    ensures
        r == Err::<T, Error>(Error::Config(why)),
{
    Err(Error::Config(why))
}

/// The pictures and colours that come with a skin.
struct Assets {
    note: Option<Vec<u8>>,
    border: Option<Vec<u8>>,
    cursor: Option<Vec<u8>>,
    colors: Vec<[u8; 3]>,
}

fn read_assets(archive: &mut zip::ZipArchive<std::io::Cursor<Vec<u8>>>) -> (r: Result<
    Assets,
    String,
>)
    ensures
        zip_source(*final(archive)) == zip_source(*old(archive)),
        match r {
            Ok(a) => {
                let bytes = zip_source(*old(archive));
                &&& asset_error(bytes) is None
                &&& is_picture(a.note, bytes, "noteSkin/"@)
                &&& is_picture(a.border, bytes, "borderSkin/"@)
                &&& is_picture(a.cursor, bytes, "cursorTrailSkin/"@)
                &&& channels(a.colors@) == skin_colors(bytes)
            },
            Err(e) => asset_error(zip_source(*old(archive))) == Some(e@),
        },
{
    let note: Option<Vec<u8>> = match first_zip_entry_under(archive, "noteSkin/") {
        Ok(picture) => picture,
        Err(why) => {
            return Err(why);
        },
    };
    let border: Option<Vec<u8>> = match first_zip_entry_under(archive, "borderSkin/") {
        Ok(picture) => picture,
        Err(why) => {
            return Err(why);
        },
    };
    let cursor: Option<Vec<u8>> = match first_zip_entry_under(archive, "cursorTrailSkin/") {
        Ok(picture) => picture,
        Err(why) => {
            return Err(why);
        },
    };
    match read_colors(archive) {
        Ok(colors) => Ok(Assets { note, border, cursor, colors }),
        Err(why) => Err(why),
    }
}

/// Opens an exported skin and reads its settings.
fn open_skin(data: &[u8]) -> (r: Result<
    (zip::ZipArchive<std::io::Cursor<Vec<u8>>>, SkinConfig),
    Error,
>)
    ensures
        match r {
            Ok((archive, c)) => zip_source(archive) == data@ && (settings_of(data@) matches Ok(doc)
                && is_config(c, doc)),
            Err(Error::Config(text)) => settings_of(data@) == Err::<Json, Seq<char>>(text@),
            Err(_) => false,
        },
{
    let owned: Vec<u8> = vstd::slice::slice_to_vec(data);
    let mut archive: zip::ZipArchive<std::io::Cursor<Vec<u8>>> = match open_zip(owned) {
        Ok(archive) => archive,
        Err(why) => {
            let mut text: String = "bad .rhs zip: ".to_owned();
            text.append(why.as_str());
            return refused(text);
        },
    };
    let config: Vec<u8> = match read_zip_entry(&mut archive, "config") {
        Ok(Some(bytes)) => bytes,
        Ok(None) => {
            return refused(".rhs has no config entry".to_owned());
        },
        Err(why) => {
            return refused(why);
        },
    };
    match SkinConfig::from_json(lossy_text(config.as_slice()).as_str()) {
        Ok(c) => Ok((archive, c)),
        Err(e) => Err(e),
    }
}

fn dressed(cfg: SkinConfig, a: Assets, layers: Vec<BackgroundLayer>) -> (c: SkinConfig)
    ensures
        c == (SkinConfig {
            note_texture: a.note,
            border_texture: a.border,
            cursor_texture: a.cursor,
            colorset: a.colors,
            background_images: layers,
            ..cfg
        }),
{
    SkinConfig {
        note_texture: a.note,
        border_texture: a.border,
        cursor_texture: a.cursor,
        colorset: a.colors,
        background_images: layers,
        ..cfg
    }
}

/// Assets do not touch the settings.
proof fn lemma_dressed(cfg: SkinConfig, a: Assets, layers: Vec<BackgroundLayer>, doc: Json)
    requires
        is_settings(cfg, doc),
    ensures
        is_settings(
            SkinConfig {
                note_texture: a.note,
                border_texture: a.border,
                cursor_texture: a.cursor,
                colorset: a.colors,
                background_images: layers,
                ..cfg
            },
            doc,
        ),
{
}

impl SkinConfig {
    /// Reads an exported skin: its settings, and the pictures and colours that come with it.
    pub fn from_rhs(data: &[u8]) -> (r: Result<SkinConfig, Error>)
        ensures
            match r {
                Ok(c) => skin_error(data@) is None && is_skin(c, data@),
                Err(Error::Config(text)) => skin_error(data@) == Some(text@),
                Err(_) => false,
            },
    {
        let (mut archive, mut cfg) = match open_skin(data) {
            Ok(opened) => opened,
            Err(e) => {
                return Err(e);
            },
        };
        let ghost doc = settings_of(data@)->Ok_0;
        let assets: Assets = match read_assets(&mut archive) {
            Ok(assets) => assets,
            Err(why) => {
                return refused(why);
            },
        };
        let mut named: Vec<BackgroundLayer> = Vec::new();
        std::mem::swap(&mut named, &mut cfg.background_images);
        proof {
            assert(layer_models(named@).len() == named@.len());
            assert(layers_of(doc).len() == layer_list(doc).len());
        }
        let layers: Vec<BackgroundLayer> = match read_pictures(&mut archive, named) {
            Ok(layers) => layers,
            Err(why) => {
                return refused(why);
            },
        };
        proof {
            lemma_dressed(cfg, assets, layers, doc);
        }
        Ok(dressed(cfg, assets, layers))
    }

    /// Reads a skin from a file with an extension: an exported skin, or a settings file.
    pub fn from_bytes(extension: &str, data: &[u8]) -> (r: Result<SkinConfig, Error>)
        ensures
            lowered(extension@) == "rhs"@ ==> match r {
                Ok(c) => skin_error(data@) is None && is_skin(c, data@),
                Err(Error::Config(text)) => skin_error(data@) == Some(text@),
                Err(_) => false,
            },
            lowered(extension@) != "rhs"@ ==> match r {
                Ok(c) => match json_document(lossy_utf8(data@)) {
                    Ok(doc) => is_config(c, doc),
                    Err(_) => false,
                },
                Err(e) => match json_document(lossy_utf8(data@)) {
                    Ok(_) => false,
                    Err(why) => e matches Error::Config(text) && text@ == "config JSON: "@ + why,
                },
            },
    {
        let ext: Vec<char> = chars_of(extension);
        let small: Vec<char> = lowercase(ext.as_slice());
        let rhs: Vec<char> = chars_of("rhs");
        if same_chars(small.as_slice(), rhs.as_slice()) {
            SkinConfig::from_rhs(data)
        } else {
            SkinConfig::from_json(lossy_text(data).as_str())
        }
    }
}

/// The file that is taken from a folder is the first in the archive that lies in it, and none is
/// found only where none lies there.
pub proof fn law_the_first_file_of_a_folder_is_taken(bytes: Seq<u8>, prefix: Seq<char>, from: nat)
    ensures
        first_from(bytes, prefix, from) matches Some(name) ==> {
            &&& is_under(name, prefix)
            &&& begins(name, prefix)
            &&& exists|i: int|
                from <= i < zip_len(bytes) && #[trigger] zip_name(bytes, i) == Some(name) && (
                forall|j: int| from <= j < i ==> !#[trigger] lies_under(bytes, j, prefix))
        },
        first_from(bytes, prefix, from) is None ==> forall|j: int|
            from <= j < zip_len(bytes) ==> !#[trigger] lies_under(bytes, j, prefix),
    decreases zip_len(bytes) - from,
{
    if from < zip_len(bytes) {
        if lies_under(bytes, from as int, prefix) {
            assert(zip_name(bytes, from as int) == first_from(bytes, prefix, from));
        } else {
            law_the_first_file_of_a_folder_is_taken(bytes, prefix, from + 1);
            if first_from(bytes, prefix, from) is Some {
                let name = first_from(bytes, prefix, from)->0;
                let i = choose|i: int|
                    from + 1 <= i < zip_len(bytes) && #[trigger] zip_name(bytes, i) == Some(name) && (
                    forall|j: int| from + 1 <= j < i ==> !#[trigger] lies_under(bytes, j, prefix));
                assert(zip_name(bytes, i) == Some(name));
                assert forall|j: int| from <= j < i implies !#[trigger] lies_under(
                    bytes,
                    j,
                    prefix,
                ) by {
                    if j > from {
                        assert(!lies_under(bytes, j, prefix));
                    }
                }
            }
        }
    }
}

/// No entry of more than 64 MiB is taken, whether it says so or not.
pub proof fn law_entries_are_bounded(
    name: Seq<char>,
    size: Result<Option<nat>, Seq<char>>,
    content: Result<Seq<u8>, Seq<char>>,
)
    ensures
        checked_entry(name, size, content) matches Ok(Some(b)) ==> b.len() <= 64 * 1024 * 1024
            && content == Ok::<Seq<u8>, Seq<char>>(b),
        size == Ok::<Option<nat>, Seq<char>>(None) ==> checked_entry(name, size, content) == Ok::<
            Option<Seq<u8>>,
            Seq<char>,
        >(None),
        (size matches Ok(Some(n)) && n <= 64 * 1024 * 1024) && (content matches Ok(b) && b.len() <= 64
            * 1024 * 1024) ==> checked_entry(name, size, content) is Ok,
        (size matches Ok(Some(n)) && n > 64 * 1024 * 1024) ==> checked_entry(name, size, content)
            is Err,
{
}

} // verus!
