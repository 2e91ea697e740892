use serkr::resolution::resolution;

#[test]
fn unprovable() {
    let result = resolution("(P ==> (Q ==> R))");
    assert!(result.is_err());
}

#[test]
fn resolution_pelletier_1() {
    let result = resolution("((P ==> Q) <=> (~Q ==> ~P))");
    assert!(result.is_ok());
}

#[test]
fn resolution_pelletier_2() {
    let result = resolution("(~~P <=> P)");
    assert!(result.is_ok());
}

#[test]
fn resolution_pelletier_3() {
    let result = resolution("(~(P ==> Q) ==> (Q ==> P))");
    assert!(result.is_ok());
}

#[test]
fn resolution_pelletier_4() {
    let result = resolution("((~P ==> Q) <=> (~Q ==> P))");
    assert!(result.is_ok());
}

#[test]
fn resolution_pelletier_5() {
    let result = resolution("(((P \\/ Q) ==> (P \\/ R)) ==> (P \\/ (Q ==> R)))");
    assert!(result.is_ok());
}

#[test]
fn resolution_pelletier_6() {
    let result = resolution("(P \\/ ~P)");
    assert!(result.is_ok());
}

#[test]
fn resolution_pelletier_7() {
    let result = resolution("(P \\/ ~~~P)");
    assert!(result.is_ok());
}

#[test]
fn resolution_pelletier_8() {
    let result = resolution("(((P ==> Q) ==> P) ==> P)");
    assert!(result.is_ok());
}

#[test]
fn pelletier_9() {
    let result = resolution("((((P \\/ Q) /\\ (~P \\/ Q)) /\\ (P \\/ ~Q)) ==> ~(~P \\/ ~Q))");
    assert!(result.is_ok());
}

#[test]
fn pelletier_10() {
    let result = resolution("(((((Q ==> R) /\\ (R ==> (P /\\ Q))) /\\ (P ==> (Q \\/ R)))) ==> (P <=> Q))");
    assert!(result.is_ok());
}

#[test]
fn pelletier_11() {
    let result = resolution("(P <=> P)");
    assert!(result.is_ok());
}

#[test]
fn pelletier_12() {
    let result = resolution("(((P <=> Q) <=> R) <=> (P <=> (Q <=> R)))");
    assert!(result.is_ok());
}

#[test]
fn pelletier_13() {
    let result = resolution("((P \\/ (Q /\\ R)) <=> ((P \\/ Q) /\\ (P \\/ R)))");
    assert!(result.is_ok());
}

#[test]
fn pelletier_14() {
    let result = resolution("((P <=> Q) <=> ((~P \\/ Q) /\\ (~Q \\/ P)))");
    assert!(result.is_ok());
}

#[test]
fn pelletier_15() {
    let result = resolution("((P ==> Q) <=> (~P \\/ Q))");
    assert!(result.is_ok());
}

#[test]
fn pelletier_16() {
    let result = resolution("((P ==> Q) \\/ (Q ==> P))");
    assert!(result.is_ok());
}

#[test]
fn pelletier_17() {
    let result = resolution("(((P /\\ (Q ==> R)) ==> S) <=>
        (((~P \\/ Q) \\/ S) /\\
        (~P \\/ (~R \\/ S))))");
    assert!(result.is_ok());
}

#[test]
fn pelletier_18() {
    let result = resolution("exists y. forall x. (F(y) ==> F(x))");
    assert!(result.is_ok());
}

#[test]
fn pelletier_19() {
    let result = resolution("exists x. forall y. forall z. ((P(y) ==> Q(z)) ==> (P(x) ==> Q(x)))");
    assert!(result.is_ok());
}

#[test]
fn pelletier_21() {
    let result = resolution("(((exists x. (P ==> F(x))) /\\
        (exists x. (F(x) ==> P)))
        ==> (exists x. (P <=> F(x))))");
    assert!(result.is_ok());
}

#[test]
fn pelletier_22() {
    let result = resolution("((forall x. (P <=> F(x))) ==> (P <=> forall x. F(x)))");
    assert!(result.is_ok());
}

#[test]
fn pelletier_23() {
    let result = resolution("((forall x. (P \\/ F(x))) <=> (P \\/ forall x. F(x)))");
    assert!(result.is_ok());
}

#[test]
fn pelletier_24() {
    let result = resolution("(((((~exists x. (S(x) /\\ Q(x))) /\\
        (forall x. (P(x) ==> (Q(x) \\/ R(x))))) /\\
        ((~exists x. P(x)) ==> exists x. Q(x))) /\\
        (forall x. ((Q(x) \\/ R(x)) ==> S(x))))
        ==> exists x. (P(x) /\\ R(x)))");
    assert!(result.is_ok());
}

#[test]
fn pelletier_25() {
    let result = resolution("(((((exists x. P(x)) /\\
        (forall x. (F(x) ==> (~G(x) /\\ R(x))))) /\\
        (forall x. (P(x) ==> (G(x) /\\ F(x))))) /\\
        ((forall x. (P(x) ==> Q(x))) \\/ exists x. (P(x) /\\ R(x))))
        ==> (exists x. (Q(x) /\\ P(x))))");
    assert!(result.is_ok());
}

#[test]
fn pelletier_26() {
    let result = resolution("((((exists x. P(x)) <=> (exists x. Q(x))) /\\
        (forall x. forall y. ((P(x) /\\ Q(y)) ==> (R(x) <=> S(y)))))
        ==> ((forall x. (P(x) ==> R(x))) <=> (forall x. (Q(x) ==> S(x)))))");
    assert!(result.is_ok());
}

#[test]
fn pelletier_30() {
    let result = resolution("(((forall x. ((F(x) \\/ G(x)) ==> ~H(x))) /\\ (forall x. ((G(x) ==> ~I(x)) ==> (F(x) /\\ H(x))))) ==> (forall x. I(x)))");
    assert!(result.is_ok());
}

#[test]
fn pelletier_35() {
    let result = resolution("exists x. exists y. (P(x, y) ==> forall x. forall y. P(x, y))");
    assert!(result.is_ok());
}

#[test]
fn pelletier_39() {
    let result = resolution("~exists x. forall y. (F(y, x) <=> ~F(y, y))");
    assert!(result.is_ok());
}

#[test]
fn pelletier_40() {
    let result = resolution("((exists y. forall x. (F(x, y) <=> F(x, x))) ==>
        ~forall x. exists y. forall z. (F(x, y) <=> ~F(z, x)))");
    assert!(result.is_ok());
}

#[test]
fn pelletier_42() {
    let result = resolution("~exists y. forall x. (F(x, y) <=> ~exists z. (F(x, z) /\\ F(z, x)))");
    assert!(result.is_ok());
}

#[test]
fn pelletier_44() {
    let result = resolution("(((forall x. (F(x) ==> (exists y. (G(y) /\\ H(x, y)) /\\ exists y. (G(y) /\\ ~H(x, y))))) /\\
        exists x. (J(x) /\\ forall y. (G(y) ==> H(x, y))))
        ==> exists x. (J(x) /\\ ~F(x)))");
    assert!(result.is_ok());
}

#[test]
fn davis_putnam() {
    let result = resolution("exists x. exists y. forall z. ((F(x, y) ==> (F(y, z) /\\ F(z, z))) /\\ ((F(x, y) /\\ G(x, y)) ==> (G(x, z) /\\ G(z, z))))");
    assert!(result.is_ok());
}
