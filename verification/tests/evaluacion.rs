use mi_motor::movegen::generate_legal;
use std::collections::BTreeSet;
use mi_motor::board::Board;
use mi_motor::eval::{distancia_chebyshev, es_pasado, eval_terms, indice_avance, king_zone, personalidad_desde_texto, Personalidad};
use mi_motor::types::Color;
use mi_motor::neural::{cambios_de_features, checksum_fnv1a, enroque_del_bando, feature_pieza, features_activas, transponer};

#[test]
fn terminos_de_la_posicion_inicial() {
    let b = Board::startpos();
    let t = eval_terms(&b, Personalidad::Tal);
    assert_eq!(t.fase, 24);
    assert_eq!(t.material, [4000, 4000]);
    assert_eq!(t.movilidad, [57, 57]);
    assert_eq!(t.pst_mg[0], t.pst_mg[1]);
    assert_eq!(t.pst_eg[0], t.pst_eg[1]);
    assert_eq!(t.estructura, [0, 0]);
    assert_eq!(t.escudo, [36, 36]);
    assert!(t.pasados_blancos.is_empty() && t.pasados_negros.is_empty());
    assert_eq!(t.torres, [0, 0]);
    assert_eq!(t.piezas_no_peon, 14);
    assert_eq!(t.distancia_reyes, 7);
    assert!(t.blancas_mueven);
    assert_eq!(t.pareja_alfiles, [true, true]);
}

#[test]
fn peones_doblados_aislados_y_pasados() {
    let b = Board::from_fen("4k3/8/8/8/8/P7/P6P/4K3 w - - 0 1").unwrap();
    let tal = eval_terms(&b, Personalidad::Tal);
    let uni = eval_terms(&b, Personalidad::Universal);
    assert_eq!(tal.estructura[0], -(8 + 16 + 8));
    assert_eq!(uni.estructura[0], -(16 + 32 + 16));
    assert_eq!(tal.pasados_blancos.len(), 3);
    assert_eq!(tal.pasados_blancos[0], (5, 4 - 7));
}

#[test]
fn peon_pasado_y_distancias() {
    assert!(es_pasado(Color::White, 36, 0));
    assert!(!es_pasado(Color::White, 36, 1u64 << 51));
    assert!(es_pasado(Color::White, 36, 1u64 << 29));
    assert!(!es_pasado(Color::Black, 36, 1u64 << 27));
    assert_eq!(distancia_chebyshev(0, 63), 7);
    assert_eq!(distancia_chebyshev(28, 30), 2);
    assert_eq!(indice_avance(Color::Black, 8), 6);
    assert_eq!(indice_avance(Color::White, 8), 1);
    let z = king_zone(4, Color::White);
    assert_eq!(z.count_ones(), 6 + 3);
}

#[test]
fn personalidad_por_nombre() {
    assert_eq!(personalidad_desde_texto("tal"), Some(Personalidad::Tal));
    assert_eq!(personalidad_desde_texto("TaL"), Some(Personalidad::Tal));
    assert_eq!(personalidad_desde_texto("UNIVERSAL"), Some(Personalidad::Universal));
    assert_eq!(personalidad_desde_texto("talx"), None);
    assert_eq!(personalidad_desde_texto(""), None);
}

#[test]
fn features_de_la_red() {
    let b = Board::startpos();
    let f = features_activas(&b);
    assert_eq!(f.len(), 34);
    assert_eq!(f[0], 8);
    assert_eq!(f[32], 768);
    assert_eq!(f[33], 769);
    let mv = mi_motor::uci::parse_uci_move(&b, "e2e4").unwrap();
    let c = b.make_move(&mv);
    assert_eq!(cambios_de_features(&b, &c), vec![(12, false), (28, true), (768, false)]);
    assert_eq!(feature_pieza(1, 5, 60), 764);
    assert!(enroque_del_bando(&b));
    assert_eq!(checksum_fnv1a(&[]), 0xcbf29ce484222325);
    assert_eq!(checksum_fnv1a(b"a"), 0xaf63dc4c8601ec8c);
}

#[test]
fn pesos_fila_a_columna() {
    let v = vec![1.0f32, 2.0, 3.0, 4.0, 5.0, 6.0];
    assert_eq!(transponer(&v, 2, 3), vec![1.0f32, 4.0, 2.0, 5.0, 3.0, 6.0]);
    assert_eq!(transponer(&vec![7u8], 1, 1), vec![7u8]);
    assert!(transponer(&Vec::<u8>::new(), 0, 5).is_empty());
}

#[test]
fn features_incrementales_igualan_el_recalculo() {
    for fen in [
        "r3k2r/p1ppqpb1/bn2pnp1/3PN3/1p2P3/2N2Q1p/PPPBBPPP/R3K2R w KQkq - 0 1",
        "rnbqkbnr/pppppppp/8/8/8/8/PPPPPPPP/RNBQKBNR w KQkq - 0 1",
        "k7/2p5/8/3pP3/8/8/8/K7 w - d6 0 1",
    ] {
        let a = Board::from_fen(fen).unwrap();
        for m in generate_legal(&a) {
            let d = a.make_move(&m);
            let mut s: BTreeSet<usize> = features_activas(&a).into_iter().collect();
            for (f, entra) in cambios_de_features(&a, &d) {
                if entra {
                    assert!(s.insert(f));
                } else {
                    assert!(s.remove(&f));
                }
            }
            let esperado: BTreeSet<usize> = features_activas(&d).into_iter().collect();
            assert_eq!(s, esperado, "{} en {}", m.to_uci(), fen);
        }
    }
}
