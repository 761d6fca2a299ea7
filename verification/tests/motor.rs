use mi_motor::bitboard::popcount;
use mi_motor::board::Board;
use mi_motor::fen::{square_from_name, square_name};
use mi_motor::movegen::{generate_legal, generate_pseudo_legal};
use mi_motor::perft::{divide, perft};
use mi_motor::search::{
    construir_tt, contempt_score, mejor_resultado, ResultadoHilo, Searcher, TTFlag, INFINITO, MATE,
};
use mi_motor::see::{see, see_oracle};
use mi_motor::types::{Color, Move, MoveFlag, PieceType};
use mi_motor::uci::{aplicar_uci, jugada_sintetica, parse_uci_move};

const STARTPOS: &str = "rnbqkbnr/pppppppp/8/8/8/8/PPPPPPPP/RNBQKBNR w KQkq - 0 1";
const KIWIPETE: &str = "r3k2r/p1ppqpb1/bn2pnp1/3PN3/1p2P3/2N2Q1p/PPPBBPPP/R3K2R w KQkq - 0 1";
const POSITION3: &str = "8/2p5/3p4/KP5r/1R3p1k/8/4P1P1/8 w - - 0 1";
const POSITION5: &str = "rnbq1k1r/pp1Pbppp/2p5/8/2B5/8/PPP1NnPP/RNBQK2R w KQ - 0 1";

/// Material from the side to move's point of view.
fn material(b: &Board) -> i32 {
    let v = [100, 320, 330, 500, 900, 0];
    let mut s = 0i32;
    for p in 0..6 {
        s += v[p] * (popcount(b.pieces[0][p]) as i32 - popcount(b.pieces[1][p]) as i32);
    }
    if b.turn == Color::White {
        s
    } else {
        -s
    }
}

fn uci_of(m: Option<Move>) -> String {
    m.map(|m| m.to_uci()).unwrap_or_default()
}

#[test]
fn perft_posicion_inicial() {
    let b = Board::from_fen(STARTPOS).unwrap();
    assert_eq!(perft(&b, 1), 20);
    assert_eq!(perft(&b, 2), 400);
    assert_eq!(perft(&b, 3), 8902);
}

#[test]
fn perft_kiwipete() {
    let b = Board::from_fen(KIWIPETE).unwrap();
    assert_eq!(perft(&b, 1), 48);
    assert_eq!(perft(&b, 2), 2039);
}

#[test]
fn perft_posicion3() {
    let b = Board::from_fen(POSITION3).unwrap();
    assert_eq!(perft(&b, 1), 14);
    assert_eq!(perft(&b, 2), 191);
    assert_eq!(perft(&b, 3), 2812);
}

#[test]
fn perft_posicion5() {
    let b = Board::from_fen(POSITION5).unwrap();
    assert_eq!(perft(&b, 1), 44);
    assert_eq!(perft(&b, 2), 1486);
}

#[test]
fn perft_profundidad_cero_es_una_linea() {
    let b = Board::from_fen(KIWIPETE).unwrap();
    assert_eq!(perft(&b, 0), 1);
}

#[test]
fn divide_reparte_el_perft() {
    let b = Board::from_fen(STARTPOS).unwrap();
    let d = divide(&b, 3);
    assert_eq!(d.len(), 20);
    let total: u64 = d.iter().map(|(_, n)| *n).sum();
    assert_eq!(total, 8902);
    let e2e4 = d.iter().find(|(m, _)| m.to_uci() == "e2e4").unwrap();
    assert_eq!(e2e4.1, 600);
    let g1f3 = d.iter().find(|(m, _)| m.to_uci() == "g1f3").unwrap();
    assert_eq!(g1f3.1, 440);
}

#[test]
fn startpos_coincide_con_fen_inicial() {
    let a = Board::startpos();
    let b = Board::from_fen(STARTPOS).unwrap();
    assert_eq!(a.pieces, b.pieces);
    assert_eq!(a.occupied, b.occupied);
    assert_eq!(a.zobrist, b.zobrist);
    assert_eq!(a.castling_rights, 15);
    assert_eq!(a.to_fen(), STARTPOS);
}

#[test]
fn fen_ida_y_vuelta() {
    for fen in [STARTPOS, KIWIPETE, POSITION3, POSITION5, "k7/8/8/3pP3/8/8/8/K7 w - d6 0 1"] {
        let b = Board::from_fen(fen).unwrap();
        assert_eq!(b.to_fen(), fen);
        let c = Board::from_fen(&b.to_fen()).unwrap();
        assert_eq!(c.pieces, b.pieces);
        assert_eq!(c.zobrist, b.zobrist);
    }
}

#[test]
fn fen_campos_opcionales() {
    let b = Board::from_fen("8/8/8/8/8/8/8/K6k w -").unwrap_err();
    assert!(b.starts_with("FEN incompleto: "));
    let c = Board::from_fen("8/8/8/8/8/8/8/K6k b - -").unwrap();
    assert_eq!(c.halfmove_clock, 0);
    assert_eq!(c.fullmove_number, 1);
    assert_eq!(c.turn, Color::Black);
}

#[test]
fn fen_errores() {
    assert_eq!(
        Board::from_fen("8/8/8/8/8/8/K6k w - - 0 1").unwrap_err(),
        "FEN con 7 filas, se esperaban 8"
    );
    assert_eq!(
        Board::from_fen("8/8/8/8/8/8/8/K5xk w - - 0 1").unwrap_err(),
        "carácter de pieza inválido: x"
    );
    assert_eq!(Board::from_fen("8/8/8/8/8/8/8/K6k x - - 0 1").unwrap_err(), "turno inválido: x");
    assert_eq!(
        Board::from_fen("8/8/8/8/8/8/8/K6k w KZ - 0 1").unwrap_err(),
        "derecho de enroque inválido: Z"
    );
    assert_eq!(
        Board::from_fen("8/8/8/8/8/8/8/K6kq w - - 0 1").unwrap_err(),
        "pieza fuera del tablero: q"
    );
}

#[test]
fn nombres_de_casillas() {
    assert_eq!(square_name(0), "a1");
    assert_eq!(square_name(63), "h8");
    assert_eq!(square_name(28), "e4");
    assert_eq!(square_from_name("e4"), Some(28));
    assert_eq!(square_from_name("i4"), None);
    assert_eq!(square_from_name("e44"), None);
    for sq in 0..64u8 {
        assert_eq!(square_from_name(&square_name(sq)), Some(sq));
    }
}

#[test]
fn jugada_uci_texto() {
    let m = Move::new(52, 60, Some(PieceType::Queen), MoveFlag::Quiet);
    assert_eq!(m.to_uci(), "e7e8q");
    let n = Move::new(12, 28, None, MoveFlag::DoublePush);
    assert_eq!(n.to_uci(), "e2e4");
}

#[test]
fn parse_uci_busca_la_jugada_legal() {
    let b = Board::startpos();
    let m = parse_uci_move(&b, "e2e4").unwrap();
    assert_eq!(m.flag, MoveFlag::DoublePush);
    assert_eq!((m.from, m.to), (12, 28));
    assert!(parse_uci_move(&b, "e2e5").is_none());
    assert!(parse_uci_move(&b, "e2").is_none());
    assert!(parse_uci_move(&b, "z2e4").is_none());
    let c = aplicar_uci(&b, "g1f3");
    assert_eq!(c.piece_at(21), Some((Color::White, PieceType::Knight)));
    assert_eq!(c.turn, Color::Black);
}

#[test]
fn promocion_uci() {
    let b = Board::from_fen("k7/4P3/8/8/8/8/8/K7 w - - 0 1").unwrap();
    let q = parse_uci_move(&b, "e7e8q").unwrap();
    assert_eq!(q.promotion, Some(PieceType::Queen));
    let n = parse_uci_move(&b, "e7e8n").unwrap();
    assert_eq!(n.promotion, Some(PieceType::Knight));
    assert!(parse_uci_move(&b, "e7e8").is_none());
}

#[test]
fn see_casos_conocidos() {
    let casos: Vec<(&str, &str, i32)> = vec![
        ("k7/8/8/7p/8/8/8/K6R w - - 0 1", "h1h5", 100),
        ("k2r4/8/8/3p4/8/8/8/K2R4 w - - 0 1", "d1d5", 100 - 500),
        ("k2r4/8/8/3p4/8/8/3R4/K2R4 w - - 0 1", "d1d5", 100),
        ("k7/8/4p3/3n4/2P5/1N6/8/K7 w - - 0 1", "c4d5", 220),
        ("k7/8/8/3pP3/8/8/8/K7 w - d6 0 1", "e5d6", 100),
        ("k7/2p5/8/3pP3/8/8/8/K7 w - d6 0 1", "e5d6", 0),
        ("r1b1k2r/ppqp1ppp/4p3/4n3/1b6/2PQBN2/P1P2PPP/R3KB1R w KQkq - 0 11", "c3b4", 330),
    ];
    for (fen, uci, esperado) in casos {
        let b = Board::from_fen(fen).unwrap();
        let mv = jugada_sintetica(&b, uci);
        assert_eq!(see(&b, &mv), esperado, "{} {}", fen, uci);
    }
}

#[test]
fn jugada_sintetica_al_paso() {
    let b = Board::from_fen("k7/8/8/3pP3/8/8/8/K7 w - d6 0 1").unwrap();
    assert_eq!(jugada_sintetica(&b, "e5d6").flag, MoveFlag::EnPassant);
    let c = Board::from_fen("k2r4/8/8/3p4/8/8/8/K2R4 w - - 0 1").unwrap();
    assert_eq!(jugada_sintetica(&c, "d1d5").flag, MoveFlag::Capture);
    assert_eq!(jugada_sintetica(&c, "d1d2").flag, MoveFlag::Quiet);
}

#[test]
fn see_acotado_por_la_victima() {
    let mut state: u64 = 0xC0FFEE1234567u64;
    let mut next = move || {
        state ^= state << 13;
        state ^= state >> 7;
        state ^= state << 17;
        state
    };
    let mut capturas = 0;
    for _ in 0..150 {
        let mut b = Board::startpos();
        let plies = 4 + (next() % 20) as u32;
        for _ in 0..plies {
            let moves = generate_legal(&b);
            if moves.is_empty() {
                break;
            }
            let mv = moves[(next() as usize) % moves.len()];
            b = b.make_move(&mv);
        }
        for mv in generate_legal(&b).into_iter().filter(|m| m.is_capture()) {
            let r = see(&b, &mv);
            let o = see_oracle(&b, &mv);
            assert!(r <= 900 && r >= -900);
            assert!(o <= 900 && o >= -900);
            capturas += 1;
        }
    }
    assert!(capturas > 0);
}

#[test]
fn see_coincide_con_oraculo() {
    let mut state: u64 = 0xC0FFEE1234567u64;
    let mut next = move || {
        state ^= state << 13;
        state ^= state >> 7;
        state ^= state << 17;
        state
    };
    for _ in 0..300 {
        let mut b = Board::startpos();
        let plies = 4 + (next() % 20) as u32;
        let mut valida = true;
        for _ in 0..plies {
            let moves = generate_legal(&b);
            if moves.is_empty() {
                valida = false;
                break;
            }
            let mv = moves[(next() as usize) % moves.len()];
            b = b.make_move(&mv);
        }
        if !valida {
            continue;
        }
        for mv in generate_legal(&b).into_iter().filter(|m| m.is_capture()) {
            assert_eq!(see(&b, &mv), see_oracle(&b, &mv), "{} {}", b.to_fen(), mv.to_uci());
        }
    }
}

#[test]
fn pseudo_legales_incluyen_legales() {
    let b = Board::from_fen(KIWIPETE).unwrap();
    let pseudo = generate_pseudo_legal(&b);
    for m in generate_legal(&b) {
        assert!(pseudo.contains(&m));
    }
}

#[test]
fn jugada_nula_dos_veces() {
    let b = Board::from_fen(KIWIPETE).unwrap();
    let n = b.make_null_move();
    assert_eq!(n.turn, Color::Black);
    assert_ne!(n.zobrist, b.zobrist);
    let nn = n.make_null_move();
    assert_eq!(nn.zobrist, b.zobrist);
    assert_eq!(nn.pieces, b.pieces);
}

#[test]
fn zobrist_incremental_coincide() {
    let b = Board::from_fen(KIWIPETE).unwrap();
    for m in generate_legal(&b) {
        let a = b.make_move(&m);
        let again = Board::from_fen(&a.to_fen()).unwrap();
        assert_eq!(a.zobrist, again.zobrist, "{}", m.to_uci());
    }
}

#[test]
fn mates_en_uno() {
    let casos = [
        ("6k1/8/6K1/8/8/8/8/R7 w - - 0 1", "a1a8"),
        ("rnbqkbnr/pppp1ppp/8/4p3/6P1/5P2/PPPPP2P/RNBQKBNR b KQkq - 0 1", "d8h4"),
        ("r1bqkb1r/pppp1ppp/2n2n2/4p2Q/2B1P3/8/PPPP1PPP/RNB1K1NR w KQkq - 4 4", "h5f7"),
    ];
    for (fen, esperada) in casos {
        let b = Board::from_fen(fen).unwrap();
        let mut s = Searcher::new(1);
        let (mv, sc, nodes) = s.search_fixed_depth(&material, &b, 3);
        assert_eq!(uci_of(mv), esperada, "{}", fen);
        assert_eq!(sc, MATE - 1);
        assert!(nodes > 0);
    }
}

#[test]
fn busqueda_sin_jugadas() {
    let mate = Board::from_fen("R5k1/5ppp/8/8/8/8/8/6K1 b - - 0 1").unwrap();
    let mut s = Searcher::new(1);
    let (mv, sc, _) = s.search_fixed_depth(&material, &mate, 3);
    assert!(mv.is_none());
    assert_eq!(sc, -INFINITO);
}

#[test]
fn busqueda_devuelve_jugada_legal() {
    let b = Board::from_fen(KIWIPETE).unwrap();
    let mut s = Searcher::new(1);
    let (mv, _, _) = s.search_fixed_depth(&material, &b, 2);
    let mv = mv.unwrap();
    assert!(generate_legal(&b).contains(&mv));
    let pv = s.extraer_pv(&b.make_move(&mv), 8);
    let mut actual = b.make_move(&mv);
    for m in pv {
        assert!(generate_legal(&actual).contains(&m));
        actual = actual.make_move(&m);
    }
}

#[test]
fn busqueda_con_tiempo() {
    let b = Board::startpos();
    let mut s = Searcher::new(1);
    let (mv, _, prof) = s.search_time(&material, &b, Some(500), 2, |_, _, _, _| {});
    assert!(prof >= 1);
    assert!(generate_legal(&b).contains(&mv.unwrap()));
    let e = s.tt_probe(b.zobrist).unwrap();
    assert_eq!(e.flag, TTFlag::Exact);
    assert_eq!(e.best, mv);
}

#[test]
fn tabla_guarda_y_sondea() {
    let mut s = Searcher::new(1);
    assert!(s.tt_probe(12345).is_none());
    s.tt_store(12345, 4, 77, TTFlag::Beta, None);
    let e = s.tt_probe(12345).unwrap();
    assert_eq!((e.key, e.depth, e.score, e.flag), (12345, 4, 77, TTFlag::Beta));
    s.tt_store(12345, 2, 99, TTFlag::Exact, None);
    assert_eq!(s.tt_probe(12345).unwrap().score, 77);
    s.tt_store(12345, 4, 99, TTFlag::Exact, None);
    assert_eq!(s.tt_probe(12345).unwrap().score, 99);
    s.clear_tt();
    assert!(s.tt_probe(12345).is_none());
}

#[test]
fn tamano_de_tabla() {
    let (tt, mask) = construir_tt(1);
    assert_eq!(tt.len(), mask + 1);
    assert!(tt.len().is_power_of_two());
    assert!(tt.len() >= 512);
}

#[test]
fn tiempo_por_jugada() {
    assert_eq!(mi_motor::search::tiempo_para_jugada(60000, 3000, true), 2000);
    assert_eq!(mi_motor::search::tiempo_para_jugada(60000, 3000, false), 100);
    assert_eq!(mi_motor::search::tiempo_para_jugada(60000, 900, false), 50);
    assert_eq!(mi_motor::search::tiempo_para_jugada(-500, 900, true), 50);
}

#[test]
fn contempt() {
    assert_eq!(contempt_score(0), 0);
    assert_eq!(contempt_score(501), -200);
    assert_eq!(contempt_score(500), 0);
    assert_eq!(contempt_score(-501), 200);
}

#[test]
fn elige_el_hilo_mas_profundo() {
    let r = |p: i32, s: i32| ResultadoHilo { mv: None, score: s, profundidad: p, nodos: 0 };
    assert_eq!(mejor_resultado(&vec![r(3, 10), r(5, -20), r(4, 100)]), 1);
    assert_eq!(mejor_resultado(&vec![r(5, 10), r(5, 30), r(5, 30)]), 2);
}

#[test]
fn texto_uci_de_cada_jugada_legal_se_lee_de_vuelta() {
    for fen in [STARTPOS, KIWIPETE, POSITION3, POSITION5, "k7/2p5/8/3pP3/8/8/8/K7 w - d6 0 1", "4k3/1P6/8/8/8/8/8/4K2R w K - 0 1"] {
        let b = Board::from_fen(fen).unwrap();
        for m in generate_legal(&b) {
            assert_eq!(parse_uci_move(&b, &m.to_uci()), Some(m), "{} en {}", m.to_uci(), fen);
        }
    }
}

#[test]
fn variante_principal_sigue_la_tabla() {
    let b = Board::startpos();
    let e2e4 = parse_uci_move(&b, "e2e4").unwrap();
    let tras = b.make_move(&e2e4);
    let e7e5 = parse_uci_move(&tras, "e7e5").unwrap();
    let mut s = Searcher::new(1);
    assert!(s.extraer_pv(&b, 5).is_empty());
    s.tt_store(b.zobrist, 3, 10, TTFlag::Exact, Some(e2e4));
    s.tt_store(tras.zobrist, 2, -10, TTFlag::Exact, Some(e7e5));
    let pv: Vec<String> = s.extraer_pv(&b, 5).iter().map(|m| m.to_uci()).collect();
    assert_eq!(pv, vec!["e2e4", "e7e5"]);
    assert_eq!(s.extraer_pv(&b, 1).len(), 1);
    assert!(s.extraer_pv(&b, 0).is_empty());
    // A move that is not legal where it is stored ends the line.
    s.tt_store(tras.zobrist, 5, 0, TTFlag::Exact, Some(e2e4));
    assert_eq!(s.extraer_pv(&b, 5).len(), 1);
}

#[test]
fn busqueda_sin_limite_llega_a_la_profundidad() {
    let b = Board::startpos();
    let mut s = Searcher::new(1);
    let (mv, _, prof) = s.search_time(&material, &b, None, 3, |_, _, _, _| {});
    assert!(mv.is_some());
    assert_eq!(prof, 3);
}

#[test]
fn see_y_oraculo_difieren_donde_el_atacante_mas_barato_no_es_lo_mejor() {
    let b = Board::from_fen("3Bk3/4B3/5p2/3Q2b1/8/1R5n/5pRK/5R2 w - - 0 1").unwrap();
    let mv = parse_uci_move(&b, "g2g5").unwrap();
    assert_eq!(see(&b, &mv), -80);
    assert_eq!(see_oracle(&b, &mv), -170);
}

#[test]
fn derechos_y_al_paso_sin_sustento_se_descartan() {
    let b = Board::from_fen("4k3/8/8/8/8/8/8/4K3 w KQkq e6 0 1").unwrap();
    let n = b.normalizado();
    assert_eq!(n.castling_rights, 0);
    assert_eq!(n.ep_square, None);
    assert_eq!(n.pieces, b.pieces);
    assert_eq!(n.to_fen(), "4k3/8/8/8/8/8/8/4K3 w - - 0 1");
    assert_eq!(n.zobrist, Board::from_fen("4k3/8/8/8/8/8/8/4K3 w - - 0 1").unwrap().zobrist);
    let e1e2 = parse_uci_move(&n, "e1e2").unwrap();
    assert_eq!(n.make_move(&e1e2).to_fen(), "4k3/8/8/8/8/8/4K3/8 b - - 1 1");
    let inicial = Board::startpos();
    assert_eq!(inicial.normalizado().to_fen(), inicial.to_fen());
    let al_paso = Board::from_fen("k7/8/8/3pP3/8/8/8/K7 w - d6 0 1").unwrap();
    assert_eq!(al_paso.normalizado().ep_square, al_paso.ep_square);
}
