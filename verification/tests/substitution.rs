use quartz::pairs::PairMap;
use quartz::template::substitute;

fn scope(pairs: &[(&str, &str)]) -> PairMap {
    let mut map = PairMap::new();
    for (k, v) in pairs {
        map.insert(k.to_string(), v.to_string());
    }
    map
}

#[test]
fn later_scope_overrides_earlier() {
    let a = scope(&[("K", "from-a"), ("ONLY_A", "a")]);
    let b = scope(&[("K", "from-b")]);
    let scopes = vec![&a, &b];
    assert_eq!(substitute("{{K}}", &scopes), "from-b");
    assert_eq!(substitute("{{ONLY_A}}/{{K}}", &scopes), "a/from-b");
}

#[test]
fn unresolved_token_is_left_verbatim() {
    let a = scope(&[("HOST", "example.com")]);
    let scopes = vec![&a];
    assert_eq!(substitute("https://{{HOST}}/{{MISSING}}", &scopes), "https://example.com/{{MISSING}}");
}

#[test]
fn empty_scope_list_is_identity() {
    let scopes: Vec<&PairMap> = Vec::new();
    assert_eq!(substitute("plain text", &scopes), "plain text");
    assert_eq!(substitute("{{A}} and {{B", &scopes), "{{A}} and {{B");
}

#[test]
fn tokens_are_read_from_left_to_right() {
    let a = scope(&[("A", "1"), ("B", "{{A}}"), ("", "empty"), ("A}B", "odd")]);
    let scopes = vec![&a];
    assert_eq!(substitute("{{A}}{{A}}", &scopes), "11");
    assert_eq!(substitute("{{ {{A}}", &scopes), "{{ 1");
    assert_eq!(substitute("{{{A}}}", &scopes), "{1}");
    assert_eq!(substitute("{{B}}", &scopes), "{{A}}");
    assert_eq!(substitute("{{}}", &scopes), "empty");
    assert_eq!(substitute("}}{{A", &scopes), "}}{{A");
    assert_eq!(substitute("{{A}B}}", &scopes), "odd");
    assert_eq!(substitute("{{ A }}", &scopes), "{{ A }}");
    assert_eq!(substitute("{A}", &scopes), "{A}");
    assert_eq!(substitute("", &scopes), "");
    assert_eq!(substitute("é{{A}}ü", &scopes), "é1ü");
}

fn reference(template: &str, scopes: &[&PairMap]) -> String {
    let t: Vec<char> = template.chars().collect();
    let mut out = String::new();
    let mut i = 0;
    while i < t.len() {
        if i + 1 < t.len() && t[i] == '{' && t[i + 1] == '{' {
            let close = (i + 2..t.len().saturating_sub(1)).find(|&e| t[e] == '}' && t[e + 1] == '}');
            if let Some(e) = close {
                let name: String = t[i + 2..e].iter().collect();
                if let Some(v) = scopes.iter().rev().find_map(|s| s.get(&name)) {
                    out.push_str(v);
                    i = e + 2;
                    continue;
                }
            }
        }
        out.push(t[i]);
        i += 1;
    }
    out
}

#[test]
fn substitute_agrees_with_a_plain_reading() {
    let a = scope(&[("a", "<A>"), ("b", "<B>")]);
    let b = scope(&[("b", "<b>"), ("", "<>")]);
    let scopes = vec![&a, &b];
    let alphabet = ['{', '}', 'a', 'b'];
    let mut seed: u64 = 12345;
    for _ in 0..3000 {
        let mut template = String::new();
        seed = seed.wrapping_mul(6364136223846793005).wrapping_add(1442695040888963407);
        let len = (seed >> 33) % 12;
        for _ in 0..len {
            seed = seed.wrapping_mul(6364136223846793005).wrapping_add(1442695040888963407);
            template.push(alphabet[((seed >> 33) % 4) as usize]);
        }
        assert_eq!(substitute(&template, &scopes), reference(&template, &scopes), "{:?}", template);
    }
}
