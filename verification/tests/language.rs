use clipsync::language::{system_language, Lang, LangPref};

#[test]
fn config_values_round_trip() {
    for p in [LangPref::Auto, LangPref::Fixed(Lang::Zh), LangPref::Fixed(Lang::English)] {
        assert_eq!(LangPref::parse(p.as_str()), p);
    }
}

#[test]
fn unknown_values_fall_back_to_auto() {
    for bad in ["", "  ", "fr", "zh-CN-extra", "true", "0"] {
        assert_eq!(LangPref::parse(bad), LangPref::Auto, "{bad:?}");
    }
    assert_eq!(LangPref::parse(" EN "), LangPref::Fixed(Lang::English));
}

#[test]
fn an_explicit_choice_ignores_the_system() {
    for system in [None, Some(Lang::Zh), Some(Lang::English)] {
        assert_eq!(LangPref::Fixed(Lang::English).resolve(system), Lang::English);
        assert_eq!(LangPref::Fixed(Lang::Zh).resolve(system), Lang::Zh);
    }
}

#[test]
fn system_detection_is_total() {
    let got = LangPref::Auto.resolve(None);
    assert!(matches!(got, Lang::Zh | Lang::English));
    assert_eq!(LangPref::Auto.resolve(Some(Lang::English)), Lang::English);
    assert_eq!(got, Lang::Zh);
}

#[test]
fn locales_speak_chinese_or_english() {
    for zh in ["zh_CN.UTF-8", "zh-Hans-CN", "ZH", "zh@pinyin"] {
        assert_eq!(system_language(zh), Lang::Zh, "{zh}");
    }
    for en in ["en_US.UTF-8", "C", "", ".zh", "de_DE@zh", "z"] {
        assert_eq!(system_language(en), Lang::English, "{en}");
    }
}
