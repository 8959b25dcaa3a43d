//! Organizations: the rules for creating one on an instance, and their random
//! slugs and invite links.
use vstd::prelude::*;

verus! {

/// Characters of a slug: digits and upper-case ASCII letters.
pub open spec fn is_upper_alphanumeric(c: char) -> bool {
    ('0' <= c && c <= '9') || ('A' <= c && c <= 'Z')
}

/// Characters of an invite link: digits and ASCII letters of either case.
pub open spec fn is_base62(c: char) -> bool {
    ('0' <= c && c <= '9') || ('A' <= c && c <= 'Z') || ('a' <= c && c <= 'z')
}

/// Length of an organization slug.
pub const SLUG_LENGTH: usize = 9;

/// Length of an invite link hash.
pub const INVITE_LINK_LENGTH: usize = 32;

/// What a user supplies to create an organization.
#[derive(Debug)]
pub struct OrganizationNew {
    pub trade_name: String,
    pub country: String,
}

/// What the instance allows and whether it has been set up.
#[derive(Clone, Copy, Debug, PartialEq, Eq, Structural)]
pub struct InstanceFlags {
    pub multi_organization_enabled: bool,
    pub instance_initiated: bool,
}

/// A stored organization. Times are seconds from 0001-01-01T00:00:00 UTC.
#[derive(Debug)]
pub struct Organization {
    pub id: u128,
    pub slug: String,
    pub trade_name: String,
    pub default_country: String,
    pub created_at: u64,
    pub archived_at: Option<u64>,
}

/// An organization as stored, with its invite link hash.
#[derive(Debug)]
pub struct OrganizationRow {
    pub id: u128,
    pub trade_name: String,
    pub slug: String,
    pub created_at: u64,
    pub archived_at: Option<u64>,
    pub invite_link_hash: Option<String>,
    pub default_country: String,
}

/// An organization about to be stored.
#[derive(Debug)]
pub struct OrganizationRowNew {
    pub id: u128,
    pub slug: String,
    pub trade_name: String,
    pub default_country: String,
}

/// Why an organization could not be created.
#[derive(Clone, Copy, Debug, PartialEq, Eq, Structural)]
pub enum OrganizationError {
    /// The instance holds one organization and allows no more.
    MultipleOrganizationsNotAllowed,
}

/// An invite link hash, and whether it was made just now.
#[derive(Debug)]
pub struct InviteLink {
    pub hash: String,
    pub created: bool,
}

/// Relies on `nanoid::format` with `nanoid::rngs::default` as its source of
/// random bytes: it returns `size` characters, each taken from `alphabet`.
/// It loops until it has them, so the alphabet is non-empty and, as it counts
/// bytes, ASCII; it asserts that the alphabet has at most 255 characters; a
/// size of zero would never return.
#[verifier::external_body]
fn random_string(alphabet: &Vec<char>, size: usize) -> (r: String)
    requires
        0 < alphabet@.len() <= 255,
        0 < size,
        forall|i: int| 0 <= i < alphabet@.len() ==> (alphabet@[i] as u32) < 128,
    ensures
        r@.len() == size,
        forall|i: int| 0 <= i < r@.len() ==> alphabet@.contains(#[trigger] r@[i]),
{
    nanoid::format(nanoid::rngs::default, alphabet.as_slice(), size)
}

fn upper_alphanumeric() -> (r: Vec<char>)
    ensures
        r@.len() == 36,
        forall|i: int| 0 <= i < r@.len() ==> (r@[i] as u32) < 128,
        forall|c: char| r@.contains(c) ==> is_upper_alphanumeric(c),
{
    let r = vec![
        '0', '1', '2', '3', '4', '5', '6', '7', '8', '9', 'A', 'B', 'C', 'D', 'E', 'F', 'G', 'H',
        'I', 'J', 'K', 'L', 'M', 'N', 'O', 'P', 'Q', 'R', 'S', 'T', 'U', 'V', 'W', 'X', 'Y', 'Z',
    ];
    proof {
        assert forall|c: char| r@.contains(c) implies is_upper_alphanumeric(c) by {
            let i = choose|i: int| 0 <= i < r@.len() && r@[i] == c;
        }
    }
    r
}

fn base62() -> (r: Vec<char>)
    ensures
        r@.len() == 62,
        forall|i: int| 0 <= i < r@.len() ==> (r@[i] as u32) < 128,
        forall|c: char| r@.contains(c) ==> is_base62(c),
{
    let r = vec![
        '0', '1', '2', '3', '4', '5', '6', '7', '8', '9', 'A', 'B', 'C', 'D', 'E', 'F', 'G', 'H',
        'I', 'J', 'K', 'L', 'M', 'N', 'O', 'P', 'Q', 'R', 'S', 'T', 'U', 'V', 'W', 'X', 'Y', 'Z',
        'a', 'b', 'c', 'd', 'e', 'f', 'g', 'h', 'i', 'j', 'k', 'l', 'm', 'n', 'o', 'p', 'q', 'r',
        's', 't', 'u', 'v', 'w', 'x', 'y', 'z',
    ];
    proof {
        assert forall|c: char| r@.contains(c) implies is_base62(c) by {
            let i = choose|i: int| 0 <= i < r@.len() && r@[i] == c;
        }
    }
    r
}

impl Organization {
    /// The organization a stored row describes; the invite link stays with
    /// the row.
    pub fn from_row(row: OrganizationRow) -> (r: Organization)
        ensures
            r.id == row.id,
            r.slug@ == row.slug@,
            r.trade_name@ == row.trade_name@,
            r.default_country@ == row.default_country@,
            r.created_at == row.created_at,
            r.archived_at == row.archived_at,
    {
        Organization {
            id: row.id,
            slug: row.slug,
            trade_name: row.trade_name,
            default_country: row.default_country,
            created_at: row.created_at,
            archived_at: row.archived_at,
        }
    }

    /// A fresh random slug: nine digits or upper-case letters.
    pub fn new_slug() -> (r: String)
        ensures
            r@.len() == SLUG_LENGTH,
            forall|i: int| 0 <= i < r@.len() ==> is_upper_alphanumeric(#[trigger] r@[i]),
    {
        let alphabet = upper_alphanumeric();
        random_string(&alphabet, SLUG_LENGTH)
    }
}

/// The instance's flags: with several organizations allowed it counts as set
/// up; otherwise it is set up once it holds an organization.
pub fn get_instance(multi_organization_enabled: bool, organization_count: u64) -> (r: InstanceFlags)
    ensures
        r.multi_organization_enabled == multi_organization_enabled,
        r.instance_initiated == (multi_organization_enabled || organization_count > 0),
{
    if multi_organization_enabled {
        InstanceFlags { multi_organization_enabled: true, instance_initiated: true }
    } else {
        InstanceFlags { multi_organization_enabled: false, instance_initiated: organization_count > 0 }
    }
}

/// The row for a new organization with id `id` and a fresh slug, where the
/// instance allows one more organization: always with several organizations
/// allowed, otherwise only while it holds none.
pub fn insert_organization(
    organization: OrganizationNew,
    id: u128,
    multi_organization_enabled: bool,
    organization_count: u64,
) -> (r: Result<OrganizationRowNew, OrganizationError>)
    ensures
        !multi_organization_enabled && organization_count > 0 ==> r == Err::<
            OrganizationRowNew,
            OrganizationError,
        >(OrganizationError::MultipleOrganizationsNotAllowed),
        multi_organization_enabled || organization_count == 0 ==> {
            &&& r is Ok
            &&& r->Ok_0.id == id
            &&& r->Ok_0.trade_name@ == organization.trade_name@
            &&& r->Ok_0.default_country@ == organization.country@
            &&& r->Ok_0.slug@.len() == SLUG_LENGTH
            &&& forall|i: int|
                0 <= i < r->Ok_0.slug@.len() ==> is_upper_alphanumeric(#[trigger] r->Ok_0.slug@[i])
        },
{
    if !multi_organization_enabled && organization_count > 0 {
        return Err(OrganizationError::MultipleOrganizationsNotAllowed);
    }
    Ok(
        OrganizationRowNew {
            id,
            slug: Organization::new_slug(),
            trade_name: organization.trade_name,
            default_country: organization.country,
        },
    )
}

/// The organization's invite link: the stored one where there is one,
/// otherwise a fresh random hash of 32 letters or digits, to be stored.
pub fn organization_get_or_create_invite_link(existing: Option<String>) -> (r: InviteLink)
    ensures
        existing is Some ==> r.hash@ == existing->Some_0@ && !r.created,
        existing is None ==> r.created && r.hash@.len() == INVITE_LINK_LENGTH && forall|i: int|
            0 <= i < r.hash@.len() ==> is_base62(#[trigger] r.hash@[i]),
{
    match existing {
        Some(hash) => InviteLink { hash, created: false },
        None => {
            let alphabet = base62();
            InviteLink { hash: random_string(&alphabet, INVITE_LINK_LENGTH), created: true }
        },
    }
}

} // verus!
