use sigil_chat::pairing::{pairing_owner, pairing_string, split_pairing};

/// A key's text, as the host writes keys.
const KEY: &str = "CKaTJqqpVNFCT3KFZgNHqA7s24Yu2XGwaEYTfB9KBkGD";

fn parse(shown: &str) -> Result<(String, Vec<String>), String> {
    let (who, domains) = split_pairing(shown)?;
    let owner = pairing_owner(&who, &domains, who == KEY)?;
    Ok((owner, domains))
}

#[test]
fn a_pair_string_yields_its_owner_and_domains() {
    let (owner, domains) = parse("sqx-pair:colin@squic.org").unwrap();
    assert_eq!(owner, "colin@squic.org");
    assert_eq!(domains, ["squic.org"]);
    let (owner, domains) = parse(&format!("sqx-pair:{KEY}@Squic.org,trunk.exchange")).unwrap();
    assert_eq!(owner, KEY);
    assert_eq!(domains, ["squic.org", "trunk.exchange"]);
    assert!(parse("sqx-pair:nobody").is_err());
    assert!(parse("colin@squic.org,trunk.exchange").is_err());
}

#[test]
fn each_mistake_in_a_pairing_string_is_said() {
    assert_eq!(split_pairing(&"x".repeat(513)).unwrap_err(), "that is longer than any pairing string");
    assert_eq!(split_pairing("nobody").unwrap_err(), "a pairing string is <account or name>@<domain>");
    assert_eq!(split_pairing("sqx-pair: @squic.org").unwrap_err(), "nothing before the @");
    assert_eq!(split_pairing("a@squic_org").unwrap_err(), "`squic_org` is not a domain name");
    assert_eq!(split_pairing("a@localhost").unwrap_err(), "`localhost` is not a domain name");
    assert_eq!(split_pairing("a@ , ").unwrap_err(), "a pairing string names at least one domain");
    assert_eq!(
        pairing_owner("Colin", &["a.org".to_string(), "b.org".to_string()], false).unwrap_err(),
        "a name lives at one domain"
    );
}

#[test]
fn domains_are_small_trimmed_and_once() {
    let (who, domains) = split_pairing("  Colin @ B.org, a.org ,,b.org  ").unwrap();
    assert_eq!(who, "Colin");
    assert_eq!(domains, ["b.org", "a.org"]);
    assert_eq!(pairing_owner(&who, &domains[..1], false).unwrap(), "colin@b.org");
    let (who, _) = split_pairing("a@b@c.org").unwrap();
    assert_eq!(who, "a@b", "the last @ divides");
    assert!(split_pairing(&"é".repeat(300)).is_err(), "bytes, not characters, are counted");
}

#[test]
fn the_pairing_string_names_each_known_domain_once_in_order() {
    let me = [1u8; 32];
    let other = [2u8; 32];
    let sessions = vec![
        (me, Some("trunk.exchange".to_string())),
        (me, None),
        (other, Some("other.org".to_string())),
        (me, Some("squic.org".to_string())),
        (me, Some("trunk.exchange".to_string())),
    ];
    assert_eq!(
        pairing_string(me, KEY, &sessions).unwrap(),
        format!("sqx-pair:{KEY}@squic.org,trunk.exchange")
    );
    assert_eq!(pairing_string(me, KEY, &[(me, None)]), None);
    assert_eq!(pairing_string([3u8; 32], KEY, &sessions), None);
}
