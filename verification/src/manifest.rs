//! The manifest that describes an archive of tiles.
use vstd::prelude::*;

use crate::json::{JsonModel, JsonNumber};
use crate::text::{decimal, decimal_text};

verus! {

/// Declares `serde_json::Map`. `members_of` names what one holds.
#[verifier::external_type_specification]
#[verifier::external_body]
#[verifier::reject_recursive_types(K)]
#[verifier::reject_recursive_types(V)]
pub struct ExMembers<K, V>(serde_json::Map<K, V>);

/// The members of a JSON object: each name, and the value under it.
pub uninterp spec fn members_of(
    m: serde_json::Map<String, serde_json::Value>,
) -> Map<Seq<char>, JsonModel>;

/// The members of the JSON object that a text spells, or nothing where `serde_json` reads
/// no object from it.
pub uninterp spec fn object_of(text: Seq<char>) -> Option<Map<Seq<char>, JsonModel>>;

/// The text that `serde_json` lays out for an object with these members, or nothing where
/// it gives none.
pub uninterp spec fn pretty_of(members: Map<Seq<char>, JsonModel>) -> Option<Seq<char>>;

/// Calls `serde_json::Map::new`: an object without members.
#[verifier::external_body]
fn no_members() -> (m: serde_json::Map<String, serde_json::Value>)
    ensures
        members_of(m) == (Map::<Seq<char>, JsonModel>::empty()),
{
    serde_json::Map::new()
}

/// A value in a manifest.
#[derive(Debug, Clone, Copy)]
enum Entry<'a> {
    Text(&'a str),
    Number(u8),
}

impl<'a> Entry<'a> {
    /// What the value says.
    spec fn model(self) -> JsonModel {
        match self {
            Entry::Text(s) => JsonModel::Text(s@),
            Entry::Number(n) => JsonModel::Number(JsonNumber::Whole(n as i64)),
        }
    }
}

/// Calls `serde_json::Map::insert`: the value comes to stand under the name, whatever was
/// there before, and the other members stay.
#[verifier::external_body]
fn put(m: &mut serde_json::Map<String, serde_json::Value>, name: &str, value: Entry<'_>)
    ensures
        members_of(*final(m)) == members_of(*old(m)).insert(name@, value.model()),
{
    m.insert(
        name.to_owned(),
        match value {
            Entry::Text(s) => serde_json::Value::from(s),
            Entry::Number(n) => serde_json::Value::from(n),
        },
    );
}

/// Calls `serde_json::from_str` for an object.
///
/// Claimed of it: whether a text is accepted, and the members of the object that comes of
/// it, depend on the text alone; `object_of` names them. What they are for a given text is
/// not stated.
#[verifier::external_body]
fn read_object(text: &str) -> (r: Option<serde_json::Map<String, serde_json::Value>>)
    ensures
        (match r {
            Some(m) => object_of(text@) == Some(members_of(m)),
            None => object_of(text@) is None,
        }),
{
    serde_json::from_str(text).ok()
}

/// Calls `serde_json::to_string_pretty` on an object.
///
/// Claimed of it: the text depends on the members alone (they are kept in the order of
/// their names); `pretty_of` names it. What it is for given members is not stated.
#[verifier::external_body]
fn pretty_text(m: &serde_json::Map<String, serde_json::Value>) -> (r: Option<String>)
    ensures
        (match r {
            Some(s) => pretty_of(members_of(*m)) == Some(s@),
            None => pretty_of(members_of(*m)) is None,
        }),
{
    serde_json::to_string_pretty(m).ok()
}

/// The members of the manifest for an archive.
pub open spec fn archive_members(
    archive: Seq<char>,
    release: Seq<char>,
    extent: Seq<char>,
    tile_zoom: u8,
) -> Map<Seq<char>, JsonModel> {
    Map::empty().insert("archive"@, JsonModel::Text(archive)).insert(
        "release"@,
        JsonModel::Text(release),
    ).insert("extent"@, JsonModel::Text(extent)).insert(
        "tile_zoom"@,
        JsonModel::Number(JsonNumber::Whole(tile_zoom as i64)),
    )
}

/// When an archive was built: seconds since 1970 and a `Z`.
pub open spec fn built_at(seconds: u64) -> Seq<char> {
    decimal(seconds as nat) + "Z"@
}

/// Whether `r` is what is laid out for these members.
pub open spec fn is_laid_out(r: Option<String>, members: Map<Seq<char>, JsonModel>) -> bool {
    match r {
        Some(s) => pretty_of(members) == Some(s@),
        None => pretty_of(members) is None,
    }
}

fn describe(archive: &str, release: &str, extent: &str, tile_zoom: u8) -> (m: serde_json::Map<
    String,
    serde_json::Value,
>)
    ensures
        members_of(m) == archive_members(archive@, release@, extent@, tile_zoom),
{
    let mut m: serde_json::Map<String, serde_json::Value> = no_members();
    put(&mut m, "archive", Entry::Text(archive));
    put(&mut m, "release", Entry::Text(release));
    put(&mut m, "extent", Entry::Text(extent));
    put(&mut m, "tile_zoom", Entry::Number(tile_zoom));
    m
}

/// The manifest of an archive that was merged from parts.
pub fn top_manifest(archive_name: &str, release: &str, extent_slug: &str, tile_zoom: u8) -> (r:
    Option<String>)
    ensures
        is_laid_out(r, archive_members(archive_name@, release@, extent_slug@, tile_zoom)),
{
    let m: serde_json::Map<String, serde_json::Value> = describe(
        archive_name,
        release,
        extent_slug,
        tile_zoom,
    );
    pretty_text(&m)
}

/// The manifest of an archive that was built `seconds` after the start of 1970.
pub fn lm_manifest(
    archive_filename: &str,
    release: &str,
    extent_slug: &str,
    tile_zoom: u8,
    seconds: u64,
) -> (r: Option<String>)
    ensures
        is_laid_out(
            r,
            archive_members(archive_filename@, release@, extent_slug@, tile_zoom).insert(
                "built_at"@,
                JsonModel::Text(built_at(seconds)),
            ),
        ),
{
    let mut m: serde_json::Map<String, serde_json::Value> = describe(
        archive_filename,
        release,
        extent_slug,
        tile_zoom,
    );
    let mut at: String = decimal_text(seconds);
    at.append("Z");
    put(&mut m, "built_at", Entry::Text(at.as_str()));
    pretty_text(&m)
}

/// A manifest with the label of the foreign ids, if there is a label and the manifest is an
/// object.
pub fn labelled_manifest(manifest: &str, label: &str) -> (r: Option<String>)
    ensures
        (match object_of(manifest@) {
            Some(members) => if label@.len() == 0 {
                r is None
            } else {
                is_laid_out(
                    r,
                    members.insert("external_id_label"@, JsonModel::Text(label@)),
                )
            },
            None => r is None,
        }),
{
    if label.unicode_len() == 0 {
        return None;
    }
    match read_object(manifest) {
        Some(m) => {
            let mut m: serde_json::Map<String, serde_json::Value> = m;
            put(&mut m, "external_id_label", Entry::Text(label));
            pretty_text(&m)
        },
        None => None,
    }
}

} // verus!
