use serkr::resolution::prove;

#[test]
fn paramodulation_pelletier_1() {
    let result = prove("((P ==> Q) <=> (~Q ==> ~P))");
    assert!(result.is_ok());
}

#[test]
fn pelletier_1_negated() {
    let result = prove("~((P ==> Q) <=> (~Q ==> ~P))");
    assert!(result.is_err());
}

#[test]
fn paramodulation_pelletier_2() {
    let result = prove("(~~P <=> P)");
    assert!(result.is_ok());
}

#[test]
fn paramodulation_pelletier_3() {
    let result = prove("(~(P ==> Q) ==> (Q ==> P))");
    assert!(result.is_ok());
}

#[test]
fn paramodulation_pelletier_4() {
    let result = prove("((~P ==> Q) <=> (~Q ==> P))");
    assert!(result.is_ok());
}

#[test]
fn paramodulation_pelletier_5() {
    let result = prove("(((P \\/ Q) ==> (P \\/ R)) ==> (P \\/ (Q ==> R)))");
    assert!(result.is_ok());
}

#[test]
fn paramodulation_pelletier_6() {
    let result = prove("(P \\/ ~P)");
    assert!(result.is_ok());
}

#[test]
fn paramodulation_pelletier_7() {
    let result = prove("(P \\/ ~~~P)");
    assert!(result.is_ok());
}

#[test]
fn paramodulation_pelletier_8() {
    let result = prove("(((P ==> Q) ==> P) ==> P)");
    assert!(result.is_ok());
}

#[test]
fn pelletier_8_negated() {
    let result = prove("~(((P ==> Q) ==> P) ==> P)");
    assert!(result.is_err());
}
