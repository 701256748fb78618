use std::borrow::Cow;

use mdutils::mathml::{
    has_fenced_middles, replace_latex, strip_dollars, MathError, MathMlPreprocessor,
};

#[test]
fn convert_markdown() {
    let input = r##"
# Hello

$a = b$

$$b = c$$

$$
c = d
$$a
        "##;

    let expected = r##"
# Hello

<math xmlns="http://www.w3.org/1998/Math/MathML" display="inline"><mi>a</mi><mo>=</mo><mi>b</mi></math>

<math xmlns="http://www.w3.org/1998/Math/MathML" display="block"><mi>b</mi><mo>=</mo><mi>c</mi></math>

<math xmlns="http://www.w3.org/1998/Math/MathML" display="block"><mi>c</mi><mo>=</mo><mi>d</mi></math>a
        "##;
    let output = replace_latex(input).unwrap();
    assert!(expected == output);
}

#[test]
fn document_without_mathematics_comes_back_borrowed() {
    let input = "# Hello\n\nNo mathematics, only `$code$`.\n";
    let output = replace_latex(input).unwrap();
    assert!(matches!(output, Cow::Borrowed(_)));
    assert_eq!(output, input);
}

#[test]
fn latex_that_cannot_be_converted_is_an_error() {
    match replace_latex("$\\begin{nothing} x \\end{nothing}$\n") {
        Err(MathError::Latex(message)) => assert!(!message.is_empty()),
        _ => panic!("an error of the conversion was expected"),
    }
}

#[test]
fn dollars_are_taken_off_both_ends() {
    assert_eq!(strip_dollars("$a = b$"), "a = b");
    assert_eq!(strip_dollars("$$\nc = d\n$$"), "\nc = d\n");
    assert_eq!(strip_dollars("a$b"), "a$b");
    assert_eq!(strip_dollars("$$$$"), "");
    assert_eq!(strip_dollars(""), "");
}

#[test]
fn preprocessor_replaces_the_mathematics_of_every_chapter() {
    let chapters = vec!["$a$\n".to_string(), "plain\n".to_string()];
    let after = MathMlPreprocessor.run(chapters).unwrap();
    assert_eq!(
        after[0],
        "<math xmlns=\"http://www.w3.org/1998/Math/MathML\" display=\"inline\"><mi>a</mi></math>\n"
    );
    assert_eq!(after[1], "plain\n");
    assert_eq!(MathMlPreprocessor.name(), "replace");
    assert!(MathMlPreprocessor.supports_renderer("html"));
    let failing = vec!["fine\n".to_string(), "$\\begin{nothing} x \\end{nothing}$\n".to_string()];
    assert!(matches!(MathMlPreprocessor.run(failing), Err((1, MathError::Latex(_)))));
}

#[test]
fn middle_before_anything_but_a_delimiter_is_an_error() {
    for input in ["$\\middle a$\n", "$\\left( a \\middle$\n", "$x \\middle  \t 1$\n", "$\\middle\\alpha$\n"] {
        match replace_latex(input) {
            Err(MathError::Latex(message)) => assert!(message.contains("middle")),
            _ => panic!("an error was expected for {input:?}"),
        }
    }
    let chapters = vec!["$a$\n".to_string(), "$\\middle a$\n".to_string()];
    assert!(matches!(MathMlPreprocessor.run(chapters), Err((1, MathError::Latex(_)))));
}

#[test]
fn middle_before_a_delimiter_is_converted() {
    let output = replace_latex("$\\left( a \\middle| b \\right)$\n").unwrap();
    assert!(output.starts_with("<math"));
    assert!(output.contains("<mo stretchy=\"true\">|</mo>"));
    let output = replace_latex("$a \\middle \n / b$\n").unwrap();
    assert!(output.contains("/</mo>"));
    assert!(replace_latex("$\\middlex$\n").is_ok());
}

#[test]
fn middles_of_a_text() {
    assert!(has_fenced_middles(""));
    assert!(has_fenced_middles("a + b"));
    assert!(has_fenced_middles("\\middle|"));
    assert!(has_fenced_middles("\\middle \t\r\n:"));
    assert!(has_fenced_middles("\\middles a"));
    assert!(has_fenced_middles("\\middl a"));
    assert!(!has_fenced_middles("\\middle"));
    assert!(!has_fenced_middles("\\middle   "));
    assert!(!has_fenced_middles("\\middle a"));
    assert!(!has_fenced_middles("\\middle| \\middle1"));
    assert!(!has_fenced_middles("\\middle{|}"));
}

#[test]
fn middle_before_a_delimiter_with_a_prime_is_an_error() {
    for input in ["$\\middle|'$\n", "$\\middle:='$\n", "$\\middle''$\n", "$\\middle\\langle  '$\n"] {
        assert!(matches!(replace_latex(input), Err(MathError::Latex(_))), "{input:?}");
    }
    assert!(!has_fenced_middles("\\middle|'"));
    assert!(!has_fenced_middles("\\middle:='"));
    assert!(has_fenced_middles("\\middle: ='"));
    assert!(!has_fenced_middles("\\middle''"));
    assert!(!has_fenced_middles("\\middle| \n '"));
    assert!(has_fenced_middles("\\middle'"));
    assert!(has_fenced_middles("\\middle|a'"));
    assert!(has_fenced_middles("\\middle:="));
}

#[test]
fn middle_before_a_command_that_is_a_delimiter_is_converted() {
    for fence in ["\\langle", "\\{", "\\|", "\\mid", "\\rangle", "\\times", "\\}"] {
        let latex = format!("\\middle{fence} b");
        assert!(has_fenced_middles(&latex), "{latex:?}");
        let document = format!("$a {latex}$\n");
        let output = replace_latex(&document).unwrap();
        assert!(output.contains("stretchy=\"true\""), "{output:?}");
    }
    for other in ["\\alpha", "\\frac", "\\left", "\\\\", "\\", "\\langlex", "\\ "] {
        assert!(!has_fenced_middles(&format!("\\middle{other}")), "{other:?}");
    }
}

#[test]
fn backslashes_in_a_row_open_every_second_command() {
    assert!(has_fenced_middles("\\\\middle a"));
    assert!(!has_fenced_middles("\\\\\\middle a"));
    assert!(has_fenced_middles("a \\\\\\\\middle"));
    assert!(replace_latex("$a \\\\middle b$\n").is_ok());
}
