use steamws::vmt;

#[test]
fn keeps_recognized_and_drops_unrecognized_keys() {
    let text = "$basetexture \"foo/bar\"\n$surfaceprop \"metal\"\n";
    let v = vmt::parse(text);
    assert_eq!(v.textures, vec!["foo/bar".to_string()]);
}

#[test]
fn empty_descriptor_yields_nothing() {
    let v = vmt::parse("");
    assert!(v.textures.is_empty());
}

#[test]
fn unmatched_lines_raise_no_error() {
    let v = vmt::parse("LightmappedGeneric\n{\n}\n");
    assert!(v.textures.is_empty());
}

#[test]
fn quoted_keys_match() {
    let text = "\t\"$basetexture\" \"some/path\"\n";
    let v = vmt::parse(text);
    assert_eq!(v.textures, vec!["some/path".to_string()]);
}

#[test]
fn keys_match_case_insensitively() {
    let text = "$BaseTexture brick/wall01\n";
    let v = vmt::parse(text);
    assert_eq!(v.textures, vec!["brick/wall01".to_string()]);
}

#[test]
fn values_are_deduplicated() {
    let text = "$basetexture shared/tex\n$bumpmap other/bump\n$detail shared/tex\n";
    let v = vmt::parse(text);
    assert_eq!(
        v.textures,
        vec!["shared/tex".to_string(), "other/bump".to_string()]
    );
}

#[test]
fn all_recognized_keys_are_collected() {
    let text = "$iris a\n$ambientoccltexture b\n$bumpmap c\n$phongexponenttexture d\n$detail e\n$selfillummask f\n$lightwarptexture g\n$envmap h\n$corneatexture i\n";
    let v = vmt::parse(text);
    assert_eq!(v.textures.len(), 9);
    assert!(v.textures.contains(&"a".to_string()));
    assert!(v.textures.contains(&"i".to_string()));
}

#[test]
fn values_keep_backslashes() {
    let v = vmt::parse("$basetexture models\\props\\thing\n");
    assert_eq!(v.textures, vec!["models\\props\\thing".to_string()]);
}

#[test]
fn value_is_trimmed_of_spaces_and_quotes() {
    let v = vmt::parse("$basetexture   \" padded/value \"  \r\n");
    assert_eq!(v.textures, vec!["padded/value".to_string()]);
}

#[test]
fn entry_may_start_mid_line() {
    let v = vmt::parse("    $basetexture indented/tex\n");
    assert_eq!(v.textures, vec!["indented/tex".to_string()]);
}
