use meteroid::organizations::{
    get_instance, insert_organization, organization_get_or_create_invite_link, InstanceFlags,
    Organization, OrganizationError, OrganizationNew,
};

fn upper_alphanumeric(c: char) -> bool {
    c.is_ascii_digit() || c.is_ascii_uppercase()
}

#[test]
fn slugs_are_nine_upper_alphanumerics() {
    let slug = Organization::new_slug();
    assert_eq!(slug.chars().count(), 9);
    assert!(slug.chars().all(upper_alphanumeric));
    assert_ne!(Organization::new_slug(), Organization::new_slug());
}

#[test]
fn invite_link_is_kept_or_created() {
    let kept = organization_get_or_create_invite_link(Some("abc".to_string()));
    assert_eq!(kept.hash, "abc");
    assert!(!kept.created);
    let fresh = organization_get_or_create_invite_link(None);
    assert!(fresh.created);
    assert_eq!(fresh.hash.chars().count(), 32);
    assert!(fresh.hash.chars().all(|c| c.is_ascii_alphanumeric()));
}

#[test]
fn instance_flags_follow_settings_and_count() {
    assert_eq!(
        get_instance(true, 0),
        InstanceFlags { multi_organization_enabled: true, instance_initiated: true }
    );
    assert_eq!(
        get_instance(false, 0),
        InstanceFlags { multi_organization_enabled: false, instance_initiated: false }
    );
    assert_eq!(
        get_instance(false, 1),
        InstanceFlags { multi_organization_enabled: false, instance_initiated: true }
    );
}

#[test]
fn single_organization_instances_refuse_a_second() {
    let org = || OrganizationNew { trade_name: "Acme".to_string(), country: "FR".to_string() };
    assert_eq!(
        insert_organization(org(), 7, false, 1).unwrap_err(),
        OrganizationError::MultipleOrganizationsNotAllowed
    );
    let row = insert_organization(org(), 7, false, 0).unwrap();
    assert_eq!(row.id, 7);
    assert_eq!(row.trade_name, "Acme");
    assert_eq!(row.default_country, "FR");
    assert_eq!(row.slug.chars().count(), 9);
    assert!(row.slug.chars().all(upper_alphanumeric));
    assert!(insert_organization(org(), 8, true, 3).is_ok());
}

#[test]
fn stored_rows_become_organizations() {
    let row = meteroid::organizations::OrganizationRow {
        id: 3,
        trade_name: "Acme".to_string(),
        slug: "A1B2C3D4E".to_string(),
        created_at: 100,
        archived_at: None,
        invite_link_hash: Some("secret".to_string()),
        default_country: "FR".to_string(),
    };
    let org = Organization::from_row(row);
    assert_eq!(org.id, 3);
    assert_eq!(org.slug, "A1B2C3D4E");
    assert_eq!(org.trade_name, "Acme");
    assert_eq!(org.default_country, "FR");
    assert_eq!(org.created_at, 100);
    assert_eq!(org.archived_at, None);
}
